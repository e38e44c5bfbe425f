//! The files of a project and how they are kept up to date.
use std::collections::HashMap;
use vstd::prelude::*;
use vstd::utf8::encode_utf8;

use crate::cache::{text_hash, CacheEntry};
use crate::config::Config;
use crate::detect::detect;
use crate::encode::xxh3_64;
use crate::language::LanguageId;
use crate::model::{CloneGroup, FileTime, SourceFile, Token};
use crate::paths::strip_prefix;
use crate::text::str_equal;
use crate::tokenize::{tokenize_with, KindTables};

verus! {

/// How many files came from the cache, and how many had to be parsed.
#[derive(Debug, Clone, Copy, PartialEq, Eq, Structural)]
pub struct BuildStats {
    pub cache_hits: usize,
    pub parsed_files: usize,
}

impl Default for BuildStats {
    fn default() -> (stats: Self)
        ensures
            stats == (BuildStats { cache_hits: 0, parsed_files: 0 }),
    {
        BuildStats { cache_hits: 0, parsed_files: 0 }
    }
}

/// Modification time and size by which a change of a file is noticed.
#[derive(Debug, Clone, Copy, PartialEq, Eq, Structural)]
pub struct FileStamp {
    pub modified: Option<FileTime>,
    pub size: u64,
}

/// The file is well formed, its unit marks are, and its tokens follow each other.
pub open spec fn file_ready(file: SourceFile) -> bool {
    &&& file.wf()
    &&& crate::spans::marks_wf(file.tokens@)
    &&& crate::tokenize::follow_each_other(file.tokens@, file.bytes().len() as int)
}

/// A text whose bytes can be told by 32-bit numbers.
pub open spec fn text_fits(text: Seq<char>) -> bool {
    encode_utf8(text).len() <= u32::MAX
}

/// Whether the bytes of a text of this length can be told by 32-bit numbers.
pub fn length_fits(len: usize) -> (fits: bool)
    ensures
        fits == (len <= u32::MAX),
{
    len as u64 <= u32::MAX as u64
}

/// So many tokens can be told by 32-bit numbers, one of which stands for no token, and hashed
/// together.
pub open spec fn count_fits(count: nat) -> bool {
    count < u32::MAX && 8 * count <= usize::MAX
}

/// The text is so long that a syntax tree of it can have too many tokens.
pub open spec fn may_overflow(text: Seq<char>, language: LanguageId) -> bool {
    &&& !count_fits(encode_utf8(text).len())
    &&& exists|tokens: Seq<Token>| #[trigger]
        crate::tokenize::come_from_a_tree(tokens, text, language) && !count_fits(tokens.len())
}

/// The file holds what is in the text: its tokens are those of a syntax tree of it.
pub open spec fn is_source(
    file: SourceFile,
    path: Seq<char>,
    language: LanguageId,
    text: Seq<char>,
    modified: Option<FileTime>,
    size: u64,
) -> bool {
    &&& file_ready(file)
    &&& file.path@ == path
    &&& file.language == language
    &&& file.text@ == text
    &&& crate::tokenize::come_from_a_tree(file.tokens@, text, language)
    &&& crate::spans::units_nest(file.tokens@)
    &&& crate::spans::ends_wf(file.tokens@)
    &&& file.hashes@ == crate::encode::hashes_of(encode_utf8(text), file.tokens@)
    &&& file.modified == modified
    &&& file.size == size
}

/// Tokenizes a text. Nothing comes of one whose grammar does not load or that has too many tokens;
/// there are never more tokens than bytes.
pub fn parse_source(
    path: String,
    text: String,
    modified: Option<FileTime>,
    size: u64,
    tables: &KindTables,
) -> (file: Option<SourceFile>)
    requires
        tables.wf(),
        text_fits(text@),
    ensures
        match file {
            Some(file) => crate::syntax::grammar_loads(tables.language()) && is_source(
                file,
                path@,
                tables.language(),
                text@,
                modified,
                size,
            ),
            None => !crate::syntax::grammar_loads(tables.language()) || may_overflow(
                text@,
                tables.language(),
            ),
        },
{
    match tokenize_with(text.as_str(), tables) {
        Ok(tokens) => {
            if tokens.len() as u64 >= u32::MAX as u64 || tokens.len() > usize::MAX / 8 {
                return None;
            }
            proof {
                lemma_tokens_lie_within(tokens@, encode_utf8(text@).len());
            }
            Some(SourceFile::new(path, tables.language_id(), text, tokens, modified, size))
        },
        Err(_) => None,
    }
}

/// Tokenizes the text of a file, unless the file is too large.
pub fn parse_file(
    path: String,
    text: String,
    stamp: FileStamp,
    max_file_bytes: u64,
    tables: &KindTables,
) -> (file: Option<SourceFile>)
    requires
        tables.wf(),
        text_fits(text@),
    ensures
        match file {
            Some(file) => stamp.size <= max_file_bytes && crate::syntax::grammar_loads(
                tables.language(),
            ) && is_source(
                file,
                path@,
                tables.language(),
                text@,
                stamp.modified,
                stamp.size,
            ),
            None => stamp.size > max_file_bytes || !crate::syntax::grammar_loads(
                tables.language(),
            ) || may_overflow(text@, tables.language()),
        },
{
    if stamp.size > max_file_bytes {
        return None;
    }
    parse_source(path, text, stamp.modified, stamp.size, tables)
}

/// The entry is that of the file as it is now: same path below the root, same size, same time of
/// modification, and not too large.
pub open spec fn is_current(
    entry: CacheEntry,
    path: Seq<char>,
    root: Seq<char>,
    stamp: FileStamp,
    max_file_bytes: u64,
) -> bool {
    &&& crate::paths::relative_to(path, root) == Some(entry.path@)
    &&& entry.size <= max_file_bytes
    &&& stamp.size == entry.size
    &&& stamp.modified == Some(entry.modified)
}

/// Whether a cache entry is that of the file as it is now.
pub fn entry_is_current(
    entry: &CacheEntry,
    path: &str,
    root: &str,
    stamp: FileStamp,
    max_file_bytes: u64,
) -> (current: bool)
    ensures
        current == is_current(*entry, path@, root@, stamp, max_file_bytes),
{
    let relative = match strip_prefix(path, root) {
        Some(relative) => relative,
        None => {
            return false;
        },
    };
    if !str_equal(relative.as_str(), entry.path.as_str()) {
        return false;
    }
    let same_time: bool = match stamp.modified {
        Some(modified) => modified == entry.modified,
        None => false,
    };
    entry.size <= max_file_bytes && stamp.size == entry.size && same_time
}

/// The tokens and hashes can belong to a text of `len` bytes.
pub open spec fn entry_fits(tokens: Seq<Token>, hashes: Seq<u64>, len: nat) -> bool {
    &&& len <= u32::MAX
    &&& tokens.len() < u32::MAX
    &&& 8 * tokens.len() <= usize::MAX
    &&& hashes.len() == tokens.len()
    &&& crate::tokenize::follow_each_other(tokens, len as int)
    &&& crate::spans::marks_wf(tokens)
}

fn marks_ok(token: &Token, index: usize, count: usize) -> (ok: bool)
    ensures
        ok == ((token.unit_start() ==> index < token.unit_end_of_start <= count) && (
        token.container_start() ==> index < token.container_end_of_start <= count)),
{
    let unit_ok: bool = !token.unit_start() || (index < token.unit_end_of_start as usize
        && token.unit_end_of_start as usize <= count);
    let container_ok: bool = !token.container_start() || (index
        < token.container_end_of_start as usize && token.container_end_of_start as usize <= count);
    unit_ok && container_ok
}

fn tokens_ok(tokens: &Vec<Token>, len: usize) -> (ok: bool)
    ensures
        ok == (crate::tokenize::follow_each_other(tokens@, len as int) && crate::spans::marks_wf(
            tokens@,
        )),
{
    let count: usize = tokens.len();
    let mut limit: u32 = 0;
    let mut i: usize = 0;
    while i < count
        invariant
            count == tokens@.len(),
            i <= count,
            limit <= len,
            crate::tokenize::follow_each_other(tokens@.take(i as int), limit as int),
            i == 0 ==> limit == 0,
            i > 0 ==> limit == tokens@[i - 1].end,
            forall|k: int|
                0 <= k < i && (#[trigger] tokens@[k]).unit_start() ==> k
                    < tokens@[k].unit_end_of_start <= count,
            forall|k: int|
                0 <= k < i && (#[trigger] tokens@[k]).container_start() ==> k
                    < tokens@[k].container_end_of_start <= count,
        decreases count - i,
    {
        let token = tokens[i];
        assert(tokens@[i as int] == token);
        let within: bool = limit <= token.start && token.start < token.end && token.end as usize
            <= len;
        if !within {
            proof {
                if crate::tokenize::follow_each_other(tokens@, len as int) {
                    assert(tokens@[i as int].start < tokens@[i as int].end <= len);
                    if i > 0 {
                        assert(tokens@[i - 1].end <= tokens@[i as int].start);
                    }
                }
            }
            return false;
        }
        if !marks_ok(&token, i, count) {
            return false;
        }
        proof {
            let shorter = tokens@.take(i as int);
            let longer = tokens@.take(i + 1);
            assert forall|k: int| 0 <= k < longer.len() implies (#[trigger] longer[k]).start
                < longer[k].end <= token.end by {
                if k < i {
                    assert(shorter[k].end <= limit);
                }
            }
            assert forall|k: int, l: int| 0 <= k < l < longer.len() implies (#[trigger] longer[k]).end
                <= (#[trigger] longer[l]).start by {
                if l < i {
                    assert(shorter[k].end <= shorter[l].start);
                } else {
                    assert(shorter[k].end <= limit);
                }
            }
        }
        limit = token.end;
        i = i + 1;
    }
    assert(tokens@.take(i as int) =~= tokens@);
    true
}

/// Tokens that follow each other lie in the text.
pub proof fn lemma_tokens_lie_within(tokens: Seq<Token>, len: nat)
    requires
        crate::tokenize::follow_each_other(tokens, len as int),
        len <= u32::MAX,
    ensures
        crate::model::tokens_fit(tokens, len),
{
    assert forall|i: int| 0 <= i < tokens.len() implies crate::encode::token_within(
        #[trigger] tokens[i],
        len,
    ) && tokens[i].start < u32::MAX by {
        assert(tokens[i].start < tokens[i].end);
    }
}

/// The file that a cache entry describes, with the text as it is now. Nothing comes of an entry
/// for another text. Nor does anything come of one whose tokens do not lie in the text one after
/// the other, or whose units end before they start: no file has such tokens, and detection would
/// leave the text or never end on them. What `encode_entry` writes for a file that was parsed is
/// never refused on that account.
pub fn file_from_entry(entry: CacheEntry, path: String, language: LanguageId, text: String) -> (file:
    Option<SourceFile>)
    ensures
        match file {
            Some(file) => {
                &&& entry.text_hash == crate::encode::xxh3(encode_utf8(text@))
                &&& entry_fits(entry.tokens@, entry.hashes@, encode_utf8(text@).len())
                &&& file_ready(file)
                &&& file.path == path
                &&& file.language == language
                &&& file.text == text
                &&& file.tokens == entry.tokens
                &&& file.hashes == entry.hashes
                &&& file.modified == Some(entry.modified)
                &&& file.size == entry.size
            },
            None => entry.text_hash != crate::encode::xxh3(encode_utf8(text@)) || !entry_fits(
                entry.tokens@,
                entry.hashes@,
                encode_utf8(text@).len(),
            ),
        },
{
    if text_hash(text.as_str()) != entry.text_hash {
        return None;
    }
    let len: usize = text.as_str().as_bytes().len();
    let count: usize = entry.tokens.len();
    if len as u64 > 0xffff_ffff || count as u64 >= 0xffff_ffff || count > usize::MAX / 8
        || entry.hashes.len() != count {
        return None;
    }
    if !tokens_ok(&entry.tokens, len) {
        return None;
    }
    proof {
        lemma_tokens_lie_within(entry.tokens@, len as nat);
    }
    Some(
        SourceFile::with_hashes(
            path,
            language,
            text,
            entry.tokens,
            entry.hashes,
            Some(entry.modified),
            entry.size,
        ),
    )
}

/// The language in which a file is scanned, if it is: the one of its name, where that is enabled.
pub fn scanned_language(path: &str, config: &Config) -> (language: Option<LanguageId>)
    ensures
        language == match crate::language::path_language(path@) {
            Some(language) => if config.languages@.contains(language) {
                Some(language)
            } else {
                None
            },
            None => None,
        },
{
    match LanguageId::from_path(path) {
        Some(language) => if config.language_enabled(language) {
            Some(language)
        } else {
            None
        },
        None => None,
    }
}

/// A file that is written to the cache is read back from there: the entry says what was written,
/// and it fits the text.
pub proof fn stored_file_is_read_back(root: Seq<char>, file: SourceFile)
    requires
        file_ready(file),
        crate::tokenize::are_plain(file.tokens@),
        crate::cache::entry_for(root, file) is Some,
        (file.modified->0).nanos < 1_000_000_000,
    ensures
        ({
            let content = crate::cache::entry_for(root, file)->0;
            &&& crate::cache::decoded(crate::cache::encoded(content)) == Some(content)
            &&& content.text_hash == crate::encode::xxh3(file.bytes())
            &&& content.tokens == file.tokens@ && content.hashes == file.hashes@
            &&& entry_fits(content.tokens, content.hashes, file.bytes().len())
        }),
{
    let content = crate::cache::entry_for(root, file)->0;
    crate::cache::entry_round_trips(content);
}

/// The key under which a path is listed.
pub open spec fn path_key(path: Seq<char>) -> u64 {
    crate::encode::xxh3(encode_utf8(path))
}

/// The paths of the files.
pub open spec fn paths_of(files: Seq<SourceFile>) -> Seq<Seq<char>> {
    files.map_values(|file: SourceFile| file.path@)
}

/// The position of the first of the paths that is `path`, from `from` on.
pub open spec fn first_of(paths: Seq<Seq<char>>, path: Seq<char>, from: int) -> Option<int>
    decreases paths.len() - from,
{
    if from >= paths.len() {
        None
    } else if paths[from] == path {
        Some(from)
    } else {
        first_of(paths, path, from + 1)
    }
}

proof fn lemma_first_of(paths: Seq<Seq<char>>, path: Seq<char>, from: int, at: int)
    requires
        from <= at < paths.len(),
        paths[at] == path,
        forall|i: int| from <= i < at ==> #[trigger] paths[i] != path,
    ensures
        first_of(paths, path, from) == Some(at),
    decreases at - from,
{
    if from < at {
        assert(paths[from] != path);
        lemma_first_of(paths, path, from + 1, at);
    }
}

proof fn lemma_first_of_none(paths: Seq<Seq<char>>, path: Seq<char>, from: int)
    requires
        forall|i: int| from <= i < paths.len() ==> #[trigger] paths[i] != path,
    ensures
        first_of(paths, path, from) is None,
    decreases paths.len() - from,
{
    if from < paths.len() {
        assert(paths[from] != path);
        lemma_first_of_none(paths, path, from + 1);
    }
}

pub proof fn lemma_first_of_found(paths: Seq<Seq<char>>, path: Seq<char>, from: int)
    requires
        0 <= from,
    ensures
        first_of(paths, path, from) matches Some(at) ==> from <= at < paths.len() && paths[at] == path,
    decreases paths.len() - from,
{
    if from < paths.len() && paths[from] != path {
        lemma_first_of_found(paths, path, from + 1);
    }
}

/// Finds files by their path.
pub struct PathTable {
    buckets: HashMap<u64, Vec<usize>>,
}

impl PathTable {
    /// One bucket: ascending positions of paths with this key.
    spec fn is_bucket(positions: Seq<usize>, paths: Seq<Seq<char>>, key: u64) -> bool {
        &&& forall|j: int|
            0 <= j < positions.len() ==> #[trigger] positions[j] < paths.len() && path_key(
                paths[positions[j] as int],
            ) == key
        &&& forall|a: int, b: int|
            0 <= a < b < positions.len() ==> #[trigger] positions[a] < #[trigger] positions[b]
    }

    /// The bucket of a key, empty where there is none.
    spec fn bucket(&self, key: u64) -> Seq<usize> {
        if self.buckets@.contains_key(key) {
            self.buckets@[key]@
        } else {
            Seq::empty()
        }
    }

    /// The table lists these paths.
    pub closed spec fn lists(&self, paths: Seq<Seq<char>>) -> bool {
        &&& forall|key: u64| Self::is_bucket(#[trigger] self.bucket(key), paths, key)
        &&& forall|i: int|
            0 <= i < paths.len() ==> #[trigger] self.bucket(path_key(paths[i])).contains(i as usize)
    }

    /// A table of no paths.
    pub fn new() -> (table: Self)
        ensures
            table.lists(Seq::empty()),
    {
        broadcast use vstd::std_specs::hash::group_hash_axioms;

        PathTable { buckets: HashMap::new() }
    }

    /// Lists one path more.
    fn add_path(&mut self, path: &str, position: usize, Ghost(paths): Ghost<Seq<Seq<char>>>)
        requires
            old(self).lists(paths),
            position == paths.len(),
        ensures
            final(self).lists(paths.push(path@)),
    {
        broadcast use vstd::std_specs::hash::group_hash_axioms;

        let key: u64 = xxh3_64(path.as_bytes());
        let ghost before = *self;
        let ghost wider = paths.push(path@);
        let mut positions: Vec<usize> = match self.buckets.remove(&key) {
            Some(positions) => positions,
            None => Vec::new(),
        };
        let ghost known = positions@;
        proof {
            assert(known == before.bucket(key));
            assert(Self::is_bucket(before.bucket(key), paths, key));
        }
        positions.push(position);
        let ghost listed = positions@;
        self.buckets.insert(key, positions);
        proof {
            assert(listed == known.push(position));
            assert forall|other: u64| Self::is_bucket(#[trigger] self.bucket(other), wider, other) by {
                assert(Self::is_bucket(before.bucket(other), paths, other));
                if other == key {
                    assert(self.bucket(other) == listed);
                    assert forall|j: int| 0 <= j < listed.len() implies #[trigger] listed[j]
                        < wider.len() && path_key(wider[listed[j] as int]) == key by {
                        if j < known.len() {
                            assert(known[j] < paths.len());
                        }
                    }
                    assert forall|a: int, b: int| 0 <= a < b < listed.len() implies #[trigger] listed[a]
                        < #[trigger] listed[b] by {
                        if b < known.len() {
                            assert(known[a] < known[b]);
                        } else {
                            assert(known[a] < paths.len());
                        }
                    }
                } else {
                    assert(self.bucket(other) == before.bucket(other));
                    let same = before.bucket(other);
                    assert forall|j: int| 0 <= j < same.len() implies #[trigger] same[j]
                        < wider.len() && path_key(wider[same[j] as int]) == other by {
                        assert(same[j] < paths.len());
                    }
                }
            }
            assert forall|i: int| 0 <= i < wider.len() implies #[trigger] self.bucket(
                path_key(wider[i]),
            ).contains(i as usize) by {
                if i < paths.len() {
                    assert(before.bucket(path_key(paths[i])).contains(i as usize));
                    if path_key(paths[i]) == key {
                        let j = choose|j: int| 0 <= j < known.len() && known[j] == i as usize;
                        assert(listed[j] == i as usize);
                    } else {
                        assert(self.bucket(path_key(wider[i])) == before.bucket(path_key(paths[i])));
                    }
                } else {
                    assert(listed[listed.len() - 1] == i as usize);
                }
            }
        }
    }

    /// Lists the paths of the files.
    pub fn of_files(files: &Vec<SourceFile>) -> (table: Self)
        ensures
            table.lists(paths_of(files@)),
    {
        let mut table = PathTable::new();
        let mut i: usize = 0;
        let ghost all = paths_of(files@);
        assert(all.take(0) =~= Seq::empty());
        while i < files.len()
            invariant
                all == paths_of(files@),
                i <= files@.len(),
                table.lists(all.take(i as int)),
            decreases files@.len() - i,
        {
            table.add_path(files[i].path.as_str(), i, Ghost(all.take(i as int)));
            assert(all.take(i as int).push(files@[i as int].path@) =~= all.take(i + 1));
            i = i + 1;
        }
        assert(all.take(i as int) =~= all);
        table
    }

    /// The position of the first file with this path.
    pub fn find(&self, files: &Vec<SourceFile>, path: &str) -> (position: Option<usize>)
        requires
            self.lists(paths_of(files@)),
        ensures
            match position {
                Some(at) => first_of(paths_of(files@), path@, 0) == Some(at as int),
                None => first_of(paths_of(files@), path@, 0) is None,
            },
    {
        broadcast use vstd::std_specs::hash::group_hash_axioms;

        let key: u64 = xxh3_64(path.as_bytes());
        let count: usize = files.len();
        let ghost paths = paths_of(files@);
        proof {
            assert(Self::is_bucket(self.bucket(key), paths, key));
        }
        let positions = match self.buckets.get(&key) {
            Some(positions) => positions,
            None => {
                proof {
                    assert forall|i: int| 0 <= i < paths.len() implies #[trigger] paths[i] != path@ by {
                        if paths[i] == path@ {
                            assert(self.bucket(path_key(paths[i])).contains(i as usize));
                        }
                    }
                    lemma_first_of_none(paths, path@, 0);
                }
                return None;
            },
        };
        let ghost bucket = positions@;
        assert(bucket == self.bucket(key));
        let mut j: usize = 0;
        while j < positions.len()
            invariant
                paths == paths_of(files@),
                paths.len() == count,
                self.lists(paths),
                key == path_key(path@),
                bucket == self.bucket(key),
                bucket == positions@,
                Self::is_bucket(bucket, paths, key),
                j <= positions@.len(),
                forall|k: int| 0 <= k < j ==> paths[#[trigger] bucket[k] as int] != path@,
            decreases positions@.len() - j,
        {
            let at: usize = positions[j];
            assert(bucket[j as int] == at);
            if str_equal(files[at].path.as_str(), path) {
                proof {
                    assert forall|i: int| 0 <= i < at implies #[trigger] paths[i] != path@ by {
                        if paths[i] == path@ {
                            assert(self.bucket(path_key(paths[i])).contains(i as usize));
                            let k = choose|k: int| 0 <= k < bucket.len() && bucket[k] == i as usize;
                            if k > j {
                                assert(bucket[j as int] < bucket[k]);
                            }
                        }
                    }
                    assert(paths[at as int] == path@);
                    lemma_first_of(paths, path@, 0, at as int);
                }
                return Some(at);
            }
            j = j + 1;
        }
        proof {
            assert forall|i: int| 0 <= i < paths.len() implies #[trigger] paths[i] != path@ by {
                if paths[i] == path@ {
                    assert(self.bucket(path_key(paths[i])).contains(i as usize));
                    let k = choose|k: int| 0 <= k < bucket.len() && bucket[k] == i as usize;
                    assert(paths[bucket[k] as int] != path@);
                }
            }
            lemma_first_of_none(paths, path@, 0);
        }
        None
    }
}

/// References to the files.
pub open spec fn file_refs<'a>(files: Seq<SourceFile>) -> Seq<&'a SourceFile> {
    Seq::new(files.len(), |i: int| &files[i])
}

/// References to the files.
pub fn references(files: &Vec<SourceFile>) -> (refs: Vec<&SourceFile>)
    ensures
        refs@ == file_refs(files@),
{
    let mut refs: Vec<&SourceFile> = Vec::new();
    let mut i: usize = 0;
    while i < files.len()
        invariant
            i <= files@.len(),
            refs@ == file_refs(files@).take(i as int),
        decreases files@.len() - i,
    {
        refs.push(&files[i]);
        i = i + 1;
        assert(refs@ =~= file_refs(files@).take(i as int));
    }
    assert(refs@ =~= file_refs(files@));
    refs
}

/// Every file is ready for detection.
pub open spec fn all_ready(files: Seq<SourceFile>) -> bool {
    forall|i: int| 0 <= i < files.len() ==> file_ready(#[trigger] files[i])
}

/// What came of a file that was to be read.
pub enum Loaded {
    /// The cache had it.
    Cached(SourceFile),
    /// It was parsed.
    Parsed(SourceFile),
    /// Nothing came of it.
    Failed,
}

/// The file, if one came of it, is ready.
pub open spec fn loaded_ready(loaded: Loaded) -> bool {
    match loaded {
        Loaded::Cached(file) => file_ready(file),
        Loaded::Parsed(file) => file_ready(file),
        Loaded::Failed => true,
    }
}

/// The files among what was loaded, in order, up to the `n`-th.
pub open spec fn loaded_files(loaded: Seq<Loaded>, n: int) -> Seq<SourceFile>
    decreases n,
{
    if n <= 0 {
        Seq::empty()
    } else {
        match loaded[n - 1] {
            Loaded::Cached(file) => loaded_files(loaded, n - 1).push(file),
            Loaded::Parsed(file) => loaded_files(loaded, n - 1).push(file),
            Loaded::Failed => loaded_files(loaded, n - 1),
        }
    }
}

/// How many of the first `n` came from the cache.
pub open spec fn cached_count(loaded: Seq<Loaded>, n: int) -> nat
    decreases n,
{
    if n <= 0 {
        0
    } else {
        cached_count(loaded, n - 1) + if loaded[n - 1] is Cached {
            1nat
        } else {
            0nat
        }
    }
}

/// The files of a project.
pub struct SourceIndex {
    root: String,
    config: Config,
    files: Vec<SourceFile>,
    table: PathTable,
    cache_dir: Option<String>,
    stats: BuildStats,
}

impl SourceIndex {
    /// The files, in order.
    pub closed spec fn content(&self) -> Seq<SourceFile> {
        self.files@
    }

    pub closed spec fn root_path(&self) -> Seq<char> {
        self.root@
    }

    pub closed spec fn settings(&self) -> Config {
        self.config
    }

    pub closed spec fn counts(&self) -> BuildStats {
        self.stats
    }

    pub closed spec fn cache_path(&self) -> Option<String> {
        self.cache_dir
    }

    /// Every file is ready for detection and can be found by its path.
    pub closed spec fn wf(&self) -> bool {
        &&& all_ready(self.files@)
        &&& self.table.lists(paths_of(self.files@))
    }

    /// The parts of the invariant that a user of the index needs.
    pub proof fn lemma_files_ready(&self)
        requires
            self.wf(),
        ensures
            all_ready(self.content()),
            crate::cluster::files_ready(file_refs(self.content())),
    {
        let refs = file_refs(self.files@);
        assert forall|i: int| 0 <= i < refs.len() implies (#[trigger] refs[i]).wf()
            && crate::spans::marks_wf(refs[i].tokens@) by {
            assert(file_ready(self.files@[i]));
        }
    }

    fn from_parts(
        root: String,
        config: Config,
        files: Vec<SourceFile>,
        cache_dir: Option<String>,
        stats: BuildStats,
    ) -> (index: Self)
        requires
            all_ready(files@),
        ensures
            index.wf(),
            index.content() == files@,
            index.root_path() == root@,
            index.settings() == config,
            index.cache_path() == cache_dir,
            index.counts() == stats,
    {
        let table = PathTable::of_files(&files);
        SourceIndex { root, config, files, table, cache_dir, stats }
    }

    /// The index of what was loaded: the files in order, without those of which nothing came.
    /// Whatever did not come from the cache counts as parsed.
    pub fn build_at(
        root: String,
        config: Config,
        cache_dir: Option<String>,
        loaded: Vec<Loaded>,
    ) -> (index: Self)
        requires
            forall|i: int| 0 <= i < loaded@.len() ==> loaded_ready(#[trigger] loaded@[i]),
        ensures
            index.wf(),
            index.content() == loaded_files(loaded@, loaded@.len() as int),
            index.root_path() == root@,
            index.settings() == config,
            index.cache_path() == cache_dir,
            index.counts().cache_hits == cached_count(loaded@, loaded@.len() as int),
            index.counts().parsed_files == loaded@.len() - cached_count(
                loaded@,
                loaded@.len() as int,
            ),
    {
        let mut files: Vec<SourceFile> = Vec::new();
        let mut cache_hits: usize = 0;
        let total: usize = loaded.len();
        let ghost all = loaded@;
        for item in it: loaded
            invariant
                total == all.len(),
                forall|i: int| 0 <= i < all.len() ==> loaded_ready(#[trigger] all[i]),
                it.seq() == all,
                files@ == loaded_files(all, it.index() as int),
                all_ready(files@),
                cache_hits == cached_count(all, it.index() as int),
                cache_hits <= it.index(),
        {
            assert(item == all[it.index() as int]);
            assert(loaded_ready(all[it.index() as int]));
            match item {
                Loaded::Cached(file) => {
                    files.push(file);
                    cache_hits = cache_hits + 1;
                },
                Loaded::Parsed(file) => {
                    files.push(file);
                },
                Loaded::Failed => {},
            }
        }
        let stats = BuildStats { cache_hits, parsed_files: total - cache_hits };
        Self::from_parts(root, config, files, cache_dir, stats)
    }

    pub fn root(&self) -> (root: &str)
        ensures
            root@ == self.root_path(),
    {
        self.root.as_str()
    }

    pub fn config(&self) -> (config: &Config)
        ensures
            *config == self.settings(),
    {
        &self.config
    }

    pub fn files(&self) -> (files: &Vec<SourceFile>)
        ensures
            files@ == self.content(),
    {
        &self.files
    }

    pub fn cache_dir(&self) -> (dir: &Option<String>)
        ensures
            *dir == self.cache_path(),
    {
        &self.cache_dir
    }

    pub fn stats(&self) -> (stats: BuildStats)
        ensures
            stats == self.counts(),
    {
        self.stats
    }

    /// The position of the file with this path.
    pub fn file_by_path(&self, path: &str) -> (position: Option<usize>)
        requires
            self.wf(),
        ensures
            match position {
                Some(at) => first_of(paths_of(self.content()), path@, 0) == Some(at as int),
                None => first_of(paths_of(self.content()), path@, 0) is None,
            },
    {
        self.table.find(&self.files, path)
    }

    /// The clone groups of the project.
    pub fn find_clones(&self, config: &Config) -> (groups: Vec<CloneGroup>)
        requires
            self.wf(),
            self.content().len() <= u32::MAX,
        ensures
            crate::cluster::group_views(groups@) == crate::detect::detected(
                file_refs(self.content()),
                *config,
                None,
            ),
            crate::findings::are_findings(
                file_refs(self.content()),
                crate::cluster::group_views(groups@),
                *config,
            ),
    {
        let refs = references(&self.files);
        proof {
            self.lemma_files_ready();
        }
        detect(refs.as_slice(), config)
    }
}

/// What a refresh does about one path.
#[derive(Debug, Clone, Copy, PartialEq, Eq, Structural)]
pub enum SlotPlan {
    /// The file at this position has not changed.
    Keep(usize),
    /// The file has to be read.
    Load,
}

/// What a refresh does: one step per path, and the positions of the files that are gone.
pub struct RefreshPlan {
    pub slots: Vec<SlotPlan>,
    pub removed: Vec<usize>,
}

/// The file has this modification time and size.
pub open spec fn has_stamp(file: SourceFile, stamp: Option<FileStamp>) -> bool {
    stamp == Some(FileStamp { modified: file.modified, size: file.size })
}

/// What is done about a path: the file that has it is kept where its time and size are the same.
pub open spec fn slot_for(
    files: Seq<SourceFile>,
    path: Seq<char>,
    stamp: Option<FileStamp>,
) -> SlotPlan {
    match first_of(paths_of(files), path, 0) {
        Some(at) => if has_stamp(files[at], stamp) {
            SlotPlan::Keep(at as usize)
        } else {
            SlotPlan::Load
        },
        None => SlotPlan::Load,
    }
}

/// What is done about each path.
pub open spec fn slots_for(
    files: Seq<SourceFile>,
    paths: Seq<(String, LanguageId)>,
    stamps: Seq<Option<FileStamp>>,
) -> Seq<SlotPlan> {
    Seq::new(paths.len(), |i: int| slot_for(files, paths[i].0@, stamps[i]))
}

/// Nothing has changed: there are as many paths as files, and every file is kept.
pub open spec fn is_unchanged(
    files: Seq<SourceFile>,
    paths: Seq<(String, LanguageId)>,
    stamps: Seq<Option<FileStamp>>,
) -> bool {
    &&& paths.len() == files.len()
    &&& forall|i: int|
        0 <= i < paths.len() ==> #[trigger] slots_for(files, paths, stamps)[i] is Keep
}

/// One of the paths leads to the file at this position.
pub open spec fn is_listed(
    files: Seq<SourceFile>,
    paths: Seq<(String, LanguageId)>,
    at: int,
) -> bool {
    exists|i: int|
        0 <= i < paths.len() && first_of(paths_of(files), (#[trigger] paths[i]).0@, 0) == Some(at)
}

/// The positions of the first `n` files that no path leads to.
pub open spec fn removed_positions(
    files: Seq<SourceFile>,
    paths: Seq<(String, LanguageId)>,
    n: int,
) -> Seq<usize>
    decreases n,
{
    if n <= 0 {
        Seq::empty()
    } else if is_listed(files, paths, n - 1) {
        removed_positions(files, paths, n - 1)
    } else {
        removed_positions(files, paths, n - 1).push((n - 1) as usize)
    }
}

/// No path is given twice.
pub open spec fn paths_differ(paths: Seq<(String, LanguageId)>) -> bool {
    forall|i: int, j: int|
        0 <= i < j < paths.len() ==> (#[trigger] paths[i]).0@ != (#[trigger] paths[j]).0@
}

/// The steps keep files that are there, each at most once.
pub open spec fn slots_fit(slots: Seq<SlotPlan>, count: int) -> bool {
    &&& forall|i: int| 0 <= i < slots.len() ==> ((#[trigger] slots[i]) matches SlotPlan::Keep(at) ==> at < count)
    &&& forall|i: int, j: int|
        0 <= i < j < slots.len() && (#[trigger] slots[i]) is Keep && (#[trigger] slots[j]) is Keep ==> slots[i]
            != slots[j]
}

proof fn lemma_slots_fit(
    files: Seq<SourceFile>,
    paths: Seq<(String, LanguageId)>,
    stamps: Seq<Option<FileStamp>>,
)
    requires
        paths_differ(paths),
        files.len() <= usize::MAX,
    ensures
        slots_fit(slots_for(files, paths, stamps), files.len() as int),
{
    let slots = slots_for(files, paths, stamps);
    let known = paths_of(files);
    assert forall|i: int| 0 <= i < slots.len() implies ((#[trigger] slots[i]) matches SlotPlan::Keep(at) ==> at
        < files.len()) by {
        lemma_first_of_found(known, paths[i].0@, 0);
    }
    assert forall|i: int, j: int|
        0 <= i < j < slots.len() && (#[trigger] slots[i]) is Keep && (#[trigger] slots[j]) is Keep implies slots[i]
        != slots[j] by {
        lemma_first_of_found(known, paths[i].0@, 0);
        lemma_first_of_found(known, paths[j].0@, 0);
        assert(paths[i].0@ != paths[j].0@);
    }
}

proof fn lemma_removed_positions(
    files: Seq<SourceFile>,
    paths: Seq<(String, LanguageId)>,
    n: int,
)
    requires
        0 <= n <= files.len() <= usize::MAX,
    ensures
        forall|k: int|
            0 <= k < removed_positions(files, paths, n).len() ==> #[trigger] removed_positions(
                files,
                paths,
                n,
            )[k] < n,
    decreases n,
{
    if n > 0 {
        lemma_removed_positions(files, paths, n - 1);
        let shorter = removed_positions(files, paths, n - 1);
        let whole = removed_positions(files, paths, n);
        assert forall|k: int| 0 <= k < whole.len() implies #[trigger] whole[k] < n by {
            if k < shorter.len() {
                assert(shorter[k] < n - 1);
            }
        }
    }
}

fn same_stamp(file: &SourceFile, stamp: Option<FileStamp>) -> (same: bool)
    ensures
        same == has_stamp(*file, stamp),
{
    let modified = file.modified;
    match stamp {
        Some(stamp) => {
            let same_time: bool = match (stamp.modified, modified) {
                (Some(a), Some(b)) => a == b,
                (None, None) => true,
                _ => false,
            };
            same_time && stamp.size == file.size
        },
        None => false,
    }
}

impl SourceIndex {
    /// What is to be done for the index to hold the files at these paths, as they are now. Nothing
    /// where it does already.
    pub fn plan_refresh(
        &self,
        paths: &Vec<(String, LanguageId)>,
        stamps: &Vec<Option<FileStamp>>,
    ) -> (plan: Option<RefreshPlan>)
        requires
            self.wf(),
            stamps@.len() == paths@.len(),
            paths_differ(paths@),
        ensures
            match plan {
                Some(plan) => {
                    &&& !is_unchanged(self.content(), paths@, stamps@)
                    &&& plan.slots@ == slots_for(self.content(), paths@, stamps@)
                    &&& plan.removed@ == removed_positions(
                        self.content(),
                        paths@,
                        self.content().len() as int,
                    )
                    &&& slots_fit(plan.slots@, self.content().len() as int)
                    &&& forall|k: int|
                        0 <= k < plan.removed@.len() ==> #[trigger] plan.removed@[k]
                            < self.content().len()
                },
                None => is_unchanged(self.content(), paths@, stamps@),
            },
    {
        let ghost files = self.files@;
        let ghost known = paths_of(files);
        let ghost wanted = slots_for(files, paths@, stamps@);
        let count: usize = self.files.len();
        let mut slots: Vec<SlotPlan> = Vec::new();
        let mut listed: Vec<bool> = Vec::new();
        let mut k: usize = 0;
        while k < count
            invariant
                k <= count,
                listed@.len() == k,
                forall|j: int| 0 <= j < k ==> !#[trigger] listed@[j],
            decreases count - k,
        {
            listed.push(false);
            k = k + 1;
        }
        let mut kept: bool = true;
        let mut i: usize = 0;
        assert(slots@ =~= wanted.take(0));
        while i < paths.len()
            invariant
                self.wf(),
                files == self.files@,
                known == paths_of(files),
                count == files.len(),
                stamps@.len() == paths@.len(),
                wanted == slots_for(files, paths@, stamps@),
                listed@.len() == count,
                i <= paths@.len(),
                slots@ == wanted.take(i as int),
                kept == (forall|j: int| 0 <= j < i ==> #[trigger] wanted[j] is Keep),
                forall|j: int|
                    0 <= j < count ==> #[trigger] listed@[j] == is_listed(
                        files,
                        paths@.take(i as int),
                        j,
                    ),
            decreases paths@.len() - i,
        {
            let ghost shorter = paths@.take(i as int);
            let ghost longer = paths@.take(i + 1);
            let ghost listed0 = listed@;
            let found = self.table.find(&self.files, paths[i].0.as_str());
            let slot = match found {
                Some(at) => {
                    proof {
                        lemma_first_of_found(known, paths@[i as int].0@, 0);
                    }
                    listed.set(at, true);
                    if same_stamp(&self.files[at], stamps[i]) {
                        SlotPlan::Keep(at)
                    } else {
                        SlotPlan::Load
                    }
                },
                None => SlotPlan::Load,
            };
            assert(slot == wanted[i as int]);
            proof {
                assert forall|j: int| 0 <= j < count implies #[trigger] listed@[j] == is_listed(
                    files,
                    longer,
                    j,
                ) by {
                    assert(listed0[j] == is_listed(files, shorter, j));
                    if is_listed(files, shorter, j) {
                        let m = choose|m: int|
                            0 <= m < shorter.len() && first_of(
                                paths_of(files),
                                (#[trigger] shorter[m]).0@,
                                0,
                            ) == Some(j);
                        assert(longer[m] == shorter[m]);
                    }
                    if found == Some(j as usize) {
                        assert(longer[i as int] == paths@[i as int]);
                    }
                    if is_listed(files, longer, j) && found != Some(j as usize) {
                        let m = choose|m: int|
                            0 <= m < longer.len() && first_of(
                                paths_of(files),
                                (#[trigger] longer[m]).0@,
                                0,
                            ) == Some(j);
                        assert(longer[i as int] == paths@[i as int]);
                        assert(m < i);
                        assert(shorter[m] == longer[m]);
                    }
                }
            }
            if let SlotPlan::Load = slot {
                kept = false;
            }
            slots.push(slot);
            i = i + 1;
            assert(slots@ =~= wanted.take(i as int));
        }
        assert(slots@ =~= wanted);
        assert(paths@.take(i as int) =~= paths@);
        if kept && paths.len() == count {
            return None;
        }
        let mut removed: Vec<usize> = Vec::new();
        let mut n: usize = 0;
        while n < count
            invariant
                files == self.files@,
                count == files.len(),
                listed@.len() == count,
                forall|j: int|
                    0 <= j < count ==> #[trigger] listed@[j] == is_listed(files, paths@, j),
                n <= count,
                removed@ == removed_positions(files, paths@, n as int),
            decreases count - n,
        {
            if !listed[n] {
                removed.push(n);
            }
            n = n + 1;
        }
        proof {
            lemma_slots_fit(files, paths@, stamps@);
            lemma_removed_positions(files, paths@, count as int);
        }
        Some(RefreshPlan { slots, removed })
    }
}

/// The files after a refresh, for the first `n` paths: those that are kept, and those that were
/// loaded.
pub open spec fn refreshed(
    files: Seq<SourceFile>,
    slots: Seq<SlotPlan>,
    loaded: Seq<Loaded>,
    n: int,
) -> Seq<SourceFile>
    decreases n,
{
    if n <= 0 {
        Seq::empty()
    } else {
        let before = refreshed(files, slots, loaded, n - 1);
        match (slots[n - 1], loaded[n - 1]) {
            (SlotPlan::Keep(at), _) => before.push(files[at as int]),
            (SlotPlan::Load, Loaded::Cached(file)) => before.push(file),
            (SlotPlan::Load, Loaded::Parsed(file)) => before.push(file),
            (SlotPlan::Load, Loaded::Failed) => before,
        }
    }
}

/// How many of the first `n` paths were read from the cache, and how many were parsed.
pub open spec fn refresh_counts(slots: Seq<SlotPlan>, loaded: Seq<Loaded>, n: int) -> (nat, nat)
    decreases n,
{
    if n <= 0 {
        (0, 0)
    } else {
        let before = refresh_counts(slots, loaded, n - 1);
        match (slots[n - 1], loaded[n - 1]) {
            (SlotPlan::Load, Loaded::Cached(_)) => (before.0 + 1, before.1),
            (SlotPlan::Load, Loaded::Parsed(_)) => (before.0, before.1 + 1),
            _ => before,
        }
    }
}

/// The texts of strings.
pub open spec fn texts(strings: Seq<String>) -> Seq<Seq<char>> {
    strings.map_values(|text: String| text@)
}

/// Those of the first `n` paths that are loaded.
pub open spec fn loading_paths(
    slots: Seq<SlotPlan>,
    paths: Seq<(String, LanguageId)>,
    n: int,
) -> Seq<Seq<char>>
    decreases n,
{
    if n <= 0 {
        Seq::empty()
    } else if slots[n - 1] is Load {
        loading_paths(slots, paths, n - 1).push(paths[n - 1].0@)
    } else {
        loading_paths(slots, paths, n - 1)
    }
}

/// Those of the first `n` paths of which nothing came.
pub open spec fn failed_paths(
    slots: Seq<SlotPlan>,
    loaded: Seq<Loaded>,
    paths: Seq<(String, LanguageId)>,
    n: int,
) -> Seq<Seq<char>>
    decreases n,
{
    if n <= 0 {
        Seq::empty()
    } else if slots[n - 1] is Load && loaded[n - 1] is Failed {
        failed_paths(slots, loaded, paths, n - 1).push(paths[n - 1].0@)
    } else {
        failed_paths(slots, loaded, paths, n - 1)
    }
}

/// The paths of the files at the positions.
pub open spec fn paths_at(files: Seq<SourceFile>, positions: Seq<usize>) -> Seq<Seq<char>> {
    positions.map_values(|at: usize| files[at as int].path@)
}

/// One of the first `n` steps keeps the file at this position.
spec fn is_kept(slots: Seq<SlotPlan>, n: int, at: int) -> bool {
    exists|j: int| 0 <= j < n && #[trigger] slots[j] == SlotPlan::Keep(at as usize)
}

proof fn lemma_kept_once(slots: Seq<SlotPlan>, count: int, n: int, at: usize)
    requires
        slots_fit(slots, count),
        0 <= n < slots.len(),
        slots[n] == SlotPlan::Keep(at),
    ensures
        at < count,
        !is_kept(slots, n, at as int),
{
    if is_kept(slots, n, at as int) {
        let j = choose|j: int| 0 <= j < n && #[trigger] slots[j] == SlotPlan::Keep(at);
        assert(slots[j] != slots[n]);
    }
}

impl SourceIndex {
    fn push_removed(&self, changed: &mut Vec<String>, removed: &Vec<usize>)
        requires
            forall|k: int| 0 <= k < removed@.len() ==> #[trigger] removed@[k] < self.content().len(),
        ensures
            texts(final(changed)@) == texts(old(changed)@) + paths_at(self.content(), removed@),
    {
        let ghost before = texts(changed@);
        let ghost wanted = paths_at(self.files@, removed@);
        let mut k: usize = 0;
        assert(texts(changed@) =~= before + wanted.take(0));
        while k < removed.len()
            invariant
                forall|k: int|
                    0 <= k < removed@.len() ==> #[trigger] removed@[k] < self.files@.len(),
                wanted == paths_at(self.files@, removed@),
                k <= removed@.len(),
                texts(changed@) == before + wanted.take(k as int),
            decreases removed@.len() - k,
        {
            assert(removed@[k as int] < self.files@.len());
            let ghost so_far = changed@;
            changed.push(self.files[removed[k]].path.clone());
            k = k + 1;
            assert(texts(changed@) =~= texts(so_far).push(wanted[k - 1]));
            assert(texts(changed@) =~= before + wanted.take(k as int));
        }
        assert(wanted.take(k as int) =~= wanted);
    }

    /// The paths that a refresh concerns: those that are read, and those that are gone.
    pub fn changed_paths(&self, plan: &RefreshPlan, paths: &Vec<(String, LanguageId)>) -> (changed:
        Vec<String>)
        requires
            plan.slots@.len() == paths@.len(),
            forall|k: int|
                0 <= k < plan.removed@.len() ==> #[trigger] plan.removed@[k]
                    < self.content().len(),
        ensures
            texts(changed@) == loading_paths(plan.slots@, paths@, paths@.len() as int) + paths_at(
                self.content(),
                plan.removed@,
            ),
    {
        let mut changed: Vec<String> = Vec::new();
        let mut n: usize = 0;
        assert(texts(changed@) =~= Seq::empty());
        while n < paths.len()
            invariant
                plan.slots@.len() == paths@.len(),
                n <= paths@.len(),
                texts(changed@) == loading_paths(plan.slots@, paths@, n as int),
            decreases paths@.len() - n,
        {
            if let SlotPlan::Load = plan.slots[n] {
                let ghost so_far = changed@;
                changed.push(paths[n].0.clone());
                assert(texts(changed@) =~= texts(so_far).push(paths@[n as int].0@));
            }
            n = n + 1;
        }
        self.push_removed(&mut changed, &plan.removed);
        changed
    }

    /// The paths whose cache entries are of no use any more: those that are gone, and those of
    /// which nothing came.
    pub fn stale_paths(
        &self,
        plan: &RefreshPlan,
        paths: &Vec<(String, LanguageId)>,
        loaded: &Vec<Loaded>,
    ) -> (stale: Vec<String>)
        requires
            plan.slots@.len() == paths@.len(),
            loaded@.len() == paths@.len(),
            forall|k: int|
                0 <= k < plan.removed@.len() ==> #[trigger] plan.removed@[k]
                    < self.content().len(),
        ensures
            texts(stale@) == failed_paths(
                plan.slots@,
                loaded@,
                paths@,
                paths@.len() as int,
            ) + paths_at(self.content(), plan.removed@),
    {
        let mut stale: Vec<String> = Vec::new();
        let mut n: usize = 0;
        assert(texts(stale@) =~= Seq::empty());
        while n < paths.len()
            invariant
                plan.slots@.len() == paths@.len(),
                loaded@.len() == paths@.len(),
                n <= paths@.len(),
                texts(stale@) == failed_paths(plan.slots@, loaded@, paths@, n as int),
            decreases paths@.len() - n,
        {
            let failed: bool = match (&plan.slots[n], &loaded[n]) {
                (SlotPlan::Load, Loaded::Failed) => true,
                _ => false,
            };
            if failed {
                let ghost so_far = stale@;
                stale.push(paths[n].0.clone());
                assert(texts(stale@) =~= texts(so_far).push(paths@[n as int].0@));
            }
            n = n + 1;
        }
        self.push_removed(&mut stale, &plan.removed);
        stale
    }

    /// Takes over what a refresh found: the files that are kept and those that were loaded, in the
    /// order of the paths.
    pub fn finish_refresh(&mut self, plan: RefreshPlan, loaded: Vec<Loaded>)
        requires
            old(self).wf(),
            loaded@.len() == plan.slots@.len(),
            slots_fit(plan.slots@, old(self).content().len() as int),
            forall|i: int| 0 <= i < loaded@.len() ==> loaded_ready(#[trigger] loaded@[i]),
        ensures
            final(self).wf(),
            final(self).content() == refreshed(
                old(self).content(),
                plan.slots@,
                loaded@,
                loaded@.len() as int,
            ),
            final(self).root_path() == old(self).root_path(),
            final(self).settings() == old(self).settings(),
            final(self).cache_path() == old(self).cache_path(),
            final(self).counts().cache_hits == refresh_counts(
                plan.slots@,
                loaded@,
                loaded@.len() as int,
            ).0,
            final(self).counts().parsed_files == refresh_counts(
                plan.slots@,
                loaded@,
                loaded@.len() as int,
            ).1,
    {
        let ghost before = self.files@;
        let ghost slots = plan.slots@;
        let ghost all = loaded@;
        let mut taken: Vec<SourceFile> = Vec::new();
        std::mem::swap(&mut taken, &mut self.files);
        let mut old_files: Vec<Option<SourceFile>> = Vec::new();
        for file in it: taken
            invariant
                it.seq() == before,
                old_files@.len() == it.index(),
                forall|k: int| 0 <= k < it.index() ==> #[trigger] old_files@[k] == Some(before[k]),
        {
            old_files.push(Some(file));
        }
        let mut files: Vec<SourceFile> = Vec::new();
        let mut cache_hits: usize = 0;
        let mut parsed_files: usize = 0;
        let total: usize = loaded.len();
        let mut n: usize = 0;
        for item in it: loaded
            invariant
                all_ready(before),
                total == all.len(),
                slots == plan.slots@,
                all.len() == slots.len(),
                slots_fit(slots, before.len() as int),
                forall|i: int| 0 <= i < all.len() ==> loaded_ready(#[trigger] all[i]),
                it.seq() == all,
                n == it.index(),
                n <= total,
                old_files@.len() == before.len(),
                forall|k: int|
                    0 <= k < before.len() && !is_kept(slots, n as int, k)
                        ==> #[trigger] old_files@[k] == Some(before[k]),
                files@ == refreshed(before, slots, all, n as int),
                all_ready(files@),
                cache_hits + parsed_files <= n,
                cache_hits == refresh_counts(slots, all, n as int).0,
                parsed_files == refresh_counts(slots, all, n as int).1,
        {
            let ghost old_files0 = old_files@;
            assert(item == all[n as int]);
            assert(loaded_ready(all[n as int]));
            match plan.slots[n] {
                SlotPlan::Keep(at) => {
                    proof {
                        assert(slots[n as int] == SlotPlan::Keep(at));
                        lemma_kept_once(slots, before.len() as int, n as int, at);
                        assert(old_files@[at as int] == Some(before[at as int]));
                        assert(file_ready(before[at as int]));
                    }
                    if let Some(file) = old_files[at].take() {
                        files.push(file);
                    }
                },
                SlotPlan::Load => {
                    match item {
                        Loaded::Cached(file) => {
                            files.push(file);
                            cache_hits = cache_hits + 1;
                        },
                        Loaded::Parsed(file) => {
                            files.push(file);
                            parsed_files = parsed_files + 1;
                        },
                        Loaded::Failed => {},
                    }
                },
            }
            proof {
                assert forall|k: int|
                    0 <= k < before.len() && !is_kept(slots, n + 1, k) implies #[trigger] old_files@[k]
                    == Some(before[k]) by {
                    assert(!is_kept(slots, n as int, k)) by {
                        if is_kept(slots, n as int, k) {
                            let j = choose|j: int|
                                0 <= j < n && #[trigger] slots[j] == SlotPlan::Keep(k as usize);
                            assert(slots[j] == SlotPlan::Keep(k as usize));
                        }
                    }
                    assert(slots[n as int] != SlotPlan::Keep(k as usize));
                    assert(old_files0[k] == Some(before[k]));
                }
            }
            n = n + 1;
        }
        self.table = PathTable::of_files(&files);
        self.files = files;
        self.stats = BuildStats { cache_hits, parsed_files };
    }
}

/// Every step that loads a file gave the file of its path, as it was when the refresh began.
pub open spec fn loads_answer(
    slots: Seq<SlotPlan>,
    loaded: Seq<Loaded>,
    paths: Seq<(String, LanguageId)>,
    stamps: Seq<Option<FileStamp>>,
) -> bool {
    forall|i: int|
        0 <= i < slots.len() && (#[trigger] slots[i]) is Load ==> match loaded[i] {
            Loaded::Cached(file) => file.path@ == paths[i].0@ && has_stamp(file, stamps[i]),
            Loaded::Parsed(file) => file.path@ == paths[i].0@ && has_stamp(file, stamps[i]),
            Loaded::Failed => false,
        }
}

proof fn lemma_refreshed(
    files: Seq<SourceFile>,
    paths: Seq<(String, LanguageId)>,
    stamps: Seq<Option<FileStamp>>,
    loaded: Seq<Loaded>,
    n: int,
)
    requires
        0 <= n <= paths.len(),
        stamps.len() == paths.len(),
        loaded.len() == paths.len(),
        files.len() <= usize::MAX,
        loads_answer(slots_for(files, paths, stamps), loaded, paths, stamps),
    ensures
        ({
            let after = refreshed(files, slots_for(files, paths, stamps), loaded, n);
            &&& after.len() == n
            &&& forall|i: int|
                0 <= i < n ==> (#[trigger] after[i]).path@ == paths[i].0@ && has_stamp(
                    after[i],
                    stamps[i],
                )
        }),
    decreases n,
{
    if n > 0 {
        lemma_refreshed(files, paths, stamps, loaded, n - 1);
        let slots = slots_for(files, paths, stamps);
        let at = n - 1;
        assert(slots[at] == slot_for(files, paths[at].0@, stamps[at]));
        lemma_first_of_found(paths_of(files), paths[at].0@, 0);
    }
}

/// Once a refresh has loaded what it had to, another one finds nothing to do.
pub proof fn refreshed_files_are_unchanged(
    files: Seq<SourceFile>,
    paths: Seq<(String, LanguageId)>,
    stamps: Seq<Option<FileStamp>>,
    loaded: Seq<Loaded>,
)
    requires
        stamps.len() == paths.len(),
        loaded.len() == paths.len(),
        files.len() <= usize::MAX,
        paths_differ(paths),
        loads_answer(slots_for(files, paths, stamps), loaded, paths, stamps),
    ensures
        is_unchanged(
            refreshed(files, slots_for(files, paths, stamps), loaded, paths.len() as int),
            paths,
            stamps,
        ),
{
    let n = paths.len() as int;
    let after = refreshed(files, slots_for(files, paths, stamps), loaded, n);
    lemma_refreshed(files, paths, stamps, loaded, n);
    let known = paths_of(after);
    assert forall|i: int| 0 <= i < paths.len() implies #[trigger] slots_for(
        after,
        paths,
        stamps,
    )[i] is Keep by {
        assert(after[i].path@ == paths[i].0@);
        assert forall|j: int| 0 <= j < i implies #[trigger] known[j] != paths[i].0@ by {
            assert(after[j].path@ == paths[j].0@);
            assert(paths[j].0@ != paths[i].0@);
        }
        lemma_first_of(known, paths[i].0@, 0, i);
    }
}

} // verus!
