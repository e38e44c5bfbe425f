//! How an index is kept up to date: what is kept, what is read, and how it is stored.
use vstd::prelude::*;
use vstd::utf8::encode_utf8;

use crate::cache::EntryContent;
use crate::index::{FileStamp, Loaded, SlotPlan};
use crate::language::LanguageId;
use crate::model::SourceFile;

verus! {

/// The numbers below `n` that are chosen, in order.
pub open spec fn chosen(n: int, pred: spec_fn(int) -> bool) -> Seq<int> {
    Seq::new(n as nat, |i: int| i).filter(pred)
}

proof fn lemma_chosen(n: int, pred: spec_fn(int) -> bool)
    requires
        0 <= n,
    ensures
        n == 0 ==> chosen(n, pred) == Seq::<int>::empty(),
        n > 0 ==> chosen(n, pred) == (if pred(n - 1) {
            chosen(n - 1, pred).push(n - 1)
        } else {
            chosen(n - 1, pred)
        }),
{
    let all = Seq::new(n as nat, |i: int| i);
    if n == 0 {
        crate::sort::lemma_filter_none(all, pred);
    } else {
        let fewer = Seq::new((n - 1) as nat, |i: int| i);
        assert(all =~= fewer.push(n - 1));
        crate::sort::lemma_filter_push(fewer, n - 1, pred);
    }
}

/// What comes of a path when the index is refreshed: the file that is kept, or else the one that
/// was read.
pub open spec fn outcome(
    files: Seq<SourceFile>,
    slots: Seq<SlotPlan>,
    loaded: Seq<Loaded>,
    i: int,
) -> Option<SourceFile> {
    match slots[i] {
        SlotPlan::Keep(at) => Some(files[at as int]),
        SlotPlan::Load => match loaded[i] {
            Loaded::Cached(file) => Some(file),
            Loaded::Parsed(file) => Some(file),
            Loaded::Failed => None,
        },
    }
}

/// Something comes of a path.
pub open spec fn has_outcome(
    files: Seq<SourceFile>,
    slots: Seq<SlotPlan>,
    loaded: Seq<Loaded>,
) -> spec_fn(int) -> bool {
    |i: int| outcome(files, slots, loaded, i) is Some
}

/// A refreshed index holds what came of each path, in the order of the paths.
pub proof fn refreshes_keep_the_order_of_paths(
    files: Seq<SourceFile>,
    slots: Seq<SlotPlan>,
    loaded: Seq<Loaded>,
    n: int,
)
    requires
        0 <= n,
    ensures
        ({
            let after = crate::index::refreshed(files, slots, loaded, n);
            let from = chosen(n, has_outcome(files, slots, loaded));
            &&& after.len() == from.len()
            &&& forall|k: int|
                0 <= k < after.len() ==> Some(#[trigger] after[k]) == outcome(
                    files,
                    slots,
                    loaded,
                    from[k],
                )
        }),
    decreases n,
{
    lemma_chosen(n, has_outcome(files, slots, loaded));
    if n > 0 {
        refreshes_keep_the_order_of_paths(files, slots, loaded, n - 1);
    }
}

/// A file is read from the cache.
pub open spec fn comes_cached(slots: Seq<SlotPlan>, loaded: Seq<Loaded>) -> spec_fn(int) -> bool {
    |i: int| slots[i] is Load && loaded[i] is Cached
}

/// A file is parsed.
pub open spec fn comes_parsed(slots: Seq<SlotPlan>, loaded: Seq<Loaded>) -> spec_fn(int) -> bool {
    |i: int| slots[i] is Load && loaded[i] is Parsed
}

/// A refresh counts the files that it read from the cache and those that it parsed; files that are
/// kept or could not be read count as neither.
pub proof fn refreshes_count_what_they_read(slots: Seq<SlotPlan>, loaded: Seq<Loaded>, n: int)
    requires
        0 <= n,
    ensures
        crate::index::refresh_counts(slots, loaded, n).0 == chosen(
            n,
            comes_cached(slots, loaded),
        ).len(),
        crate::index::refresh_counts(slots, loaded, n).1 == chosen(
            n,
            comes_parsed(slots, loaded),
        ).len(),
    decreases n,
{
    lemma_chosen(n, comes_cached(slots, loaded));
    lemma_chosen(n, comes_parsed(slots, loaded));
    if n > 0 {
        refreshes_count_what_they_read(slots, loaded, n - 1);
    }
}

/// What is read of a file.
pub open spec fn file_read(loaded: Seq<Loaded>, i: int) -> Option<SourceFile> {
    match loaded[i] {
        Loaded::Cached(file) => Some(file),
        Loaded::Parsed(file) => Some(file),
        Loaded::Failed => None,
    }
}

/// Something is read of a file.
pub open spec fn is_read(loaded: Seq<Loaded>) -> spec_fn(int) -> bool {
    |i: int| !(loaded[i] is Failed)
}

/// A file comes from the cache.
pub open spec fn is_cached(loaded: Seq<Loaded>) -> spec_fn(int) -> bool {
    |i: int| loaded[i] is Cached
}

/// A new index holds every file that could be read, in order, and counts those from the cache.
pub proof fn indexes_hold_what_was_read(loaded: Seq<Loaded>, n: int)
    requires
        0 <= n,
    ensures
        ({
            let files = crate::index::loaded_files(loaded, n);
            let from = chosen(n, is_read(loaded));
            &&& files.len() == from.len()
            &&& forall|k: int|
                0 <= k < files.len() ==> Some(#[trigger] files[k]) == file_read(loaded, from[k])
            &&& crate::index::cached_count(loaded, n) == chosen(n, is_cached(loaded)).len()
        }),
    decreases n,
{
    lemma_chosen(n, is_read(loaded));
    lemma_chosen(n, is_cached(loaded));
    if n > 0 {
        indexes_hold_what_was_read(loaded, n - 1);
    }
}

proof fn lemma_first(files: Seq<SourceFile>, path: Seq<char>, from: int)
    requires
        0 <= from <= files.len(),
    ensures
        match crate::index::first_of(crate::index::paths_of(files), path, from) {
            Some(at) => from <= at < files.len() && files[at].path@ == path && forall|f: int|
                from <= f < at ==> (#[trigger] files[f]).path@ != path,
            None => forall|f: int| from <= f < files.len() ==> (#[trigger] files[f]).path@ != path,
        },
    decreases files.len() - from,
{
    if from < files.len() {
        if files[from].path@ != path {
            lemma_first(files, path, from + 1);
        }
    }
}

/// A file is kept exactly if its path is still there and its time and size are those that it had.
pub proof fn unchanged_files_are_kept(
    files: Seq<SourceFile>,
    path: Seq<char>,
    stamp: Option<FileStamp>,
    at: int,
)
    requires
        files.len() <= usize::MAX,
        0 <= at < files.len(),
        files[at].path@ == path,
        forall|f: int| 0 <= f < at ==> (#[trigger] files[f]).path@ != path,
    ensures
        crate::index::slot_for(files, path, stamp) == (if stamp is Some && stamp->0.modified
            == files[at].modified && stamp->0.size == files[at].size {
            SlotPlan::Keep(at as usize)
        } else {
            SlotPlan::Load
        }),
{
    lemma_first(files, path, 0);
    let found = crate::index::first_of(crate::index::paths_of(files), path, 0)->0;
    if found < at {
        assert(files[found].path@ != path);
    } else if at < found {
        assert(files[at].path@ != path);
    }
}

/// A file of a new path is read.
pub proof fn new_files_are_read(
    files: Seq<SourceFile>,
    path: Seq<char>,
    stamp: Option<FileStamp>,
)
    requires
        forall|f: int| 0 <= f < files.len() ==> (#[trigger] files[f]).path@ != path,
    ensures
        crate::index::slot_for(files, path, stamp) is Load,
{
    lemma_first(files, path, 0);
}

/// A path is read again.
pub open spec fn is_loading(slots: Seq<SlotPlan>) -> spec_fn(int) -> bool {
    |i: int| slots[i] is Load
}

/// Nothing came of a path that was read again.
pub open spec fn is_failing(slots: Seq<SlotPlan>, loaded: Seq<Loaded>) -> spec_fn(int) -> bool {
    |i: int| slots[i] is Load && loaded[i] is Failed
}

/// The changed paths are those that are read again, and the stale ones those of which nothing came.
pub proof fn changed_paths_are_those_read_again(
    slots: Seq<SlotPlan>,
    loaded: Seq<Loaded>,
    paths: Seq<(String, LanguageId)>,
    n: int,
)
    requires
        0 <= n,
    ensures
        ({
            let loading = crate::index::loading_paths(slots, paths, n);
            let failed = crate::index::failed_paths(slots, loaded, paths, n);
            let from = chosen(n, is_loading(slots));
            let gone = chosen(n, is_failing(slots, loaded));
            &&& loading.len() == from.len()
            &&& forall|k: int|
                0 <= k < loading.len() ==> #[trigger] loading[k] == paths[from[k]].0@
            &&& failed.len() == gone.len()
            &&& forall|k: int| 0 <= k < failed.len() ==> #[trigger] failed[k] == paths[gone[k]].0@
        }),
    decreases n,
{
    lemma_chosen(n, is_loading(slots));
    lemma_chosen(n, is_failing(slots, loaded));
    if n > 0 {
        changed_paths_are_those_read_again(slots, loaded, paths, n - 1);
    }
}

/// A file is gone: none of the paths is its own, or an earlier file has its path.
pub open spec fn is_gone(files: Seq<SourceFile>, paths: Seq<(String, LanguageId)>) -> spec_fn(
    int,
) -> bool {
    |at: int|
        {
            ||| forall|i: int| 0 <= i < paths.len() ==> (#[trigger] paths[i]).0@ != files[at].path@
            ||| exists|f: int| 0 <= f < at && (#[trigger] files[f]).path@ == files[at].path@
        }
}

proof fn lemma_listed(files: Seq<SourceFile>, paths: Seq<(String, LanguageId)>, at: int)
    requires
        0 <= at < files.len(),
    ensures
        crate::index::is_listed(files, paths, at) == !is_gone(files, paths)(at),
{
    if crate::index::is_listed(files, paths, at) {
        let i = choose|i: int|
            0 <= i < paths.len() && crate::index::first_of(
                crate::index::paths_of(files),
                (#[trigger] paths[i]).0@,
                0,
            ) == Some(at);
        lemma_first(files, paths[i].0@, 0);
        assert(paths[i].0@ == files[at].path@);
    }
    if !is_gone(files, paths)(at) {
        let i = choose|i: int| 0 <= i < paths.len() && (#[trigger] paths[i]).0@ == files[at].path@;
        lemma_first(files, paths[i].0@, 0);
        let found = crate::index::first_of(crate::index::paths_of(files), paths[i].0@, 0)->0;
        if found < at {
            assert(files[found].path@ == files[at].path@);
        } else if at < found {
            assert(files[at].path@ != paths[i].0@);
        }
        assert(crate::index::first_of(crate::index::paths_of(files), paths[i].0@, 0) == Some(at));
    }
}

/// The files that are gone are removed, and no others.
pub proof fn files_that_are_gone_are_removed(
    files: Seq<SourceFile>,
    paths: Seq<(String, LanguageId)>,
    n: int,
)
    requires
        0 <= n <= files.len() <= usize::MAX,
    ensures
        ({
            let removed = crate::index::removed_positions(files, paths, n);
            let gone = chosen(n, is_gone(files, paths));
            &&& removed.len() == gone.len()
            &&& forall|k: int| 0 <= k < removed.len() ==> #[trigger] removed[k] == gone[k]
        }),
    decreases n,
{
    lemma_chosen(n, is_gone(files, paths));
    if n > 0 {
        files_that_are_gone_are_removed(files, paths, n - 1);
        lemma_listed(files, paths, n - 1);
    }
}

/// The number that bytes stand for, the least significant first.
pub open spec fn number_at(bytes: Seq<u8>, at: int, count: int) -> int
    decreases count,
{
    if count <= 0 {
        0
    } else {
        bytes[at] + 256 * number_at(bytes, at + 1, count - 1)
    }
}

proof fn lemma_number(bytes: Seq<u8>, at: int, value: u32)
    requires
        0 <= at,
        at + 4 <= bytes.len(),
        bytes.subrange(at, at + 4) == crate::bytes::le_u32(value),
    ensures
        number_at(bytes, at, 4) == value,
{
    crate::bytes::read_u32_gives_back(bytes, at, value);
    reveal_with_fuel(number_at, 5);
    assert(number_at(bytes, at, 4) == bytes[at] + 0x100 * bytes[at + 1] + 0x1_0000 * bytes[at + 2]
        + 0x100_0000 * bytes[at + 3]);
}

proof fn lemma_long_number(bytes: Seq<u8>, at: int, value: u64)
    requires
        0 <= at,
        at + 8 <= bytes.len(),
        bytes.subrange(at, at + 8) == crate::bytes::le_u64(value),
    ensures
        number_at(bytes, at, 8) == value,
{
    crate::bytes::read_u64_gives_back(bytes, at, value);
    reveal_with_fuel(number_at, 9);
    let low = bytes[at] + 0x100 * bytes[at + 1] + 0x1_0000 * bytes[at + 2] + 0x100_0000 * bytes[at
        + 3];
    let high = bytes[at + 4] + 0x100 * bytes[at + 5] + 0x1_0000 * bytes[at + 6] + 0x100_0000
        * bytes[at + 7];
    assert(crate::bytes::u32_at(bytes, at) == low);
    assert(crate::bytes::u32_at(bytes, at + 4) == high);
    assert(number_at(bytes, at, 8) == low + 0x1_0000_0000 * high);
}

/// A stored entry begins with its mark and its numbers: the length of the path, the number of
/// tokens, the time, the size and the hash of the text; then comes the path.
#[verifier::rlimit(30)]
#[verifier::spinoff_prover]
pub proof fn entries_begin_with_their_numbers(content: EntryContent)
    requires
        crate::cache::is_writable(content),
    ensures
        ({
            let bytes = crate::cache::encoded(content);
            let path = encode_utf8(content.path);
            &&& bytes.len() >= 44 + path.len()
            &&& bytes.take(8) == seq![68u8, 85, 80, 67, 68, 84, 49, 48]
            &&& number_at(bytes, 8, 4) == path.len()
            &&& number_at(bytes, 12, 4) == content.tokens.len()
            &&& number_at(bytes, 16, 8) == content.modified.seconds
            &&& number_at(bytes, 24, 4) == content.modified.nanos
            &&& number_at(bytes, 28, 8) == content.size
            &&& number_at(bytes, 36, 8) == content.text_hash
            &&& bytes.subrange(44, 44 + path.len() as int) == path
        }),
{
    let bytes = crate::cache::encoded(content);
    let path = encode_utf8(content.path);
    let header = crate::cache::header_bytes(content);
    assert(header.len() == 44);
    let count = content.tokens.len() as u32;
    let seconds = content.modified.seconds as u64;
    assert(bytes.subrange(0, 44) =~= header);
    assert(bytes.take(8) =~= seq![68u8, 85, 80, 67, 68, 84, 49, 48]);
    assert(bytes.subrange(8, 12) =~= crate::bytes::le_u32(path.len() as u32));
    assert(bytes.subrange(12, 16) =~= crate::bytes::le_u32(count));
    assert(bytes.subrange(16, 24) =~= crate::bytes::le_u64(seconds));
    assert(bytes.subrange(24, 28) =~= crate::bytes::le_u32(content.modified.nanos));
    assert(bytes.subrange(28, 36) =~= crate::bytes::le_u64(content.size));
    assert(bytes.subrange(36, 44) =~= crate::bytes::le_u64(content.text_hash));
    assert(bytes.subrange(44, 44 + path.len() as int) =~= path);
    lemma_number(bytes, 8, path.len() as u32);
    lemma_number(bytes, 12, count);
    lemma_long_number(bytes, 16, seconds);
    lemma_number(bytes, 24, content.modified.nanos);
    lemma_long_number(bytes, 28, content.size);
    lemma_long_number(bytes, 36, content.text_hash);
}

/// A stored entry is current exactly if it is that of the path, the file is not too large, and its
/// time and size are those that were stored.
pub proof fn entries_are_current_for_the_same_file(
    entry: crate::cache::CacheEntry,
    path: Seq<char>,
    root: Seq<char>,
    stamp: FileStamp,
    max_file_bytes: u64,
)
    ensures
        crate::index::is_current(entry, path, root, stamp, max_file_bytes) <==> {
            &&& crate::paths::relative_to(path, root) == Some(entry.path@)
            &&& stamp.size <= max_file_bytes
            &&& stamp.size == entry.size
            &&& stamp.modified == Some(entry.modified)
        },
{
}

/// A file is stored exactly if its time is known and not before the epoch, and it lies under the
/// root with a path that is not too long. What is stored are its path below the root, its time and
/// size, the hash of its text, its tokens and their hashes.
pub proof fn files_are_stored_as_they_are(root: Seq<char>, file: SourceFile)
    ensures
        ({
            let entry = crate::cache::entry_for(root, file);
            let path = crate::paths::relative_to(file.path@, root);
            &&& entry is Some <==> file.modified is Some && file.modified->0.seconds >= 0 && path is Some
                && encode_utf8(path->0).len() < 0x1_0000_0000
            &&& entry matches Some(content) ==> {
                &&& Some(content.path) == path
                &&& Some(content.modified) == file.modified
                &&& content.size == file.size
                &&& content.text_hash == crate::encode::xxh3(encode_utf8(file.text@))
                &&& content.tokens == file.tokens@
                &&& content.hashes == file.hashes@
            }
        }),
{
}

/// The value of a hexadecimal digit.
pub open spec fn hex_digit_value(c: char) -> int {
    if '0' <= c <= '9' {
        c as int - '0' as int
    } else {
        10 + c as int - 'a' as int
    }
}

/// The number that the first `n` hexadecimal digits stand for, the most significant first.
pub open spec fn hex_value(digits: Seq<char>, n: int) -> int
    decreases n,
{
    if n <= 0 {
        0
    } else {
        16 * hex_value(digits, n - 1) + hex_digit_value(digits[n - 1])
    }
}

proof fn lemma_hex(key: u64, n: int)
    requires
        0 < n <= 16,
    ensures
        hex_value(crate::cache::hex_digits(key), n) == key >> ((64 - 4 * n) as u64),
    decreases n,
{
    let digits = crate::cache::hex_digits(key);
    let low = (64 - 4 * n) as u64;
    let part = (key >> low) & 15;
    assert((key >> low) & 15 < 16) by (bit_vector);
    assert(digits[n - 1] == crate::cache::hex_digit(part));
    assert(hex_digit_value(digits[n - 1]) == part);
    if n == 1 {
        assert(low == 60);
        assert((key >> 60u64) & 15 == key >> 60u64) by (bit_vector);
        reveal_with_fuel(hex_value, 2);
    } else {
        lemma_hex(key, n - 1);
        let high = (low + 4) as u64;
        assert(key >> low == 16 * (key >> high) + ((key >> low) & 15)) by (bit_vector)
            requires
                low <= 56,
                high == low + 4,
        ;
    }
}

/// Names of entries are numbers in hexadecimal digits: sixteen of them, the most significant first.
pub proof fn hexadecimal_names_read_back(key: u64)
    ensures
        crate::cache::hex_digits(key).len() == 16,
        hex_value(crate::cache::hex_digits(key), 16) == key,
        forall|i: int|
            0 <= i < 16 ==> {
                let c = #[trigger] crate::cache::hex_digits(key)[i];
                '0' <= c <= '9' || 'a' <= c <= 'f'
            },
{
    lemma_hex(key, 16);
    assert(key >> 0u64 == key) by (bit_vector);
    assert forall|i: int| 0 <= i < 16 implies {
        let c = #[trigger] crate::cache::hex_digits(key)[i];
        '0' <= c <= '9' || 'a' <= c <= 'f'
    } by {
        let low = (60 - 4 * i) as u64;
        assert((key >> low) & 15 < 16) by (bit_vector);
    }
}

} // verus!
