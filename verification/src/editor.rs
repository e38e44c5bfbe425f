//! What an editor is shown: where clones stand, which warnings come, and what is looked at again.
use vstd::prelude::*;
use vstd::utf8::encode_utf8;

use crate::config::Config;
use crate::model::{CloneType, Occurrence, SourceFile};
use crate::pending::Change;
use crate::positions::{Position, Range, TextChange};

verus! {

/// A place lies in a file.
pub open spec fn lies_there(path: Seq<char>) -> spec_fn((Seq<char>, Range)) -> bool {
    |place: (Seq<char>, Range)| place.0 == path
}

/// How many of the places lie in a file.
pub open spec fn places_in(places: Seq<(Seq<char>, Range)>, path: Seq<char>) -> int {
    places.filter(lies_there(path)).len() as int
}

/// How many places of the first `n` groups lie in a file.
pub open spec fn all_places_in(
    groups: Seq<(Seq<(Seq<char>, Range)>, int, CloneType)>,
    n: int,
    path: Seq<char>,
) -> int
    decreases n,
{
    if n <= 0 {
        0
    } else {
        all_places_in(groups, n - 1, path) + places_in(groups[n - 1].0, path)
    }
}

/// What a warning about a place of a group says: its range, how much code is duplicated how often,
/// and every other place, in order.
pub open spec fn warns_of(
    warning: (Range, Seq<char>, Seq<((Seq<char>, Range), Seq<char>)>),
    group: (Seq<(Seq<char>, Range)>, int, CloneType),
    at: int,
) -> bool {
    &&& warning.0 == group.0[at].1
    &&& warning.1 == "Duplicated code: "@ + crate::text::decimal(group.1 as nat) + " tokens, "@
        + crate::text::decimal(group.0.len()) + " occurrences ("@ + (match group.2 {
        CloneType::Type1 => "type-1"@,
        CloneType::Type2 => "type-2"@,
    }) + ")."@
    &&& warning.2.len() == group.0.len() - 1
    &&& forall|j: int|
        0 <= j < warning.2.len() ==> {
            let other = if j < at {
                group.0[j]
            } else {
                group.0[j + 1]
            };
            #[trigger] warning.2[j] == (
                other,
                "duplicated at "@ + other.0 + ":"@ + crate::text::decimal(
                    (other.1.start.line + 1) as nat,
                ),
            )
        }
}

/// A warning is about a place of one of the groups in a file.
pub open spec fn warns_in(
    groups: Seq<(Seq<(Seq<char>, Range)>, int, CloneType)>,
    path: Seq<char>,
    warning: (Range, Seq<char>, Seq<((Seq<char>, Range), Seq<char>)>),
) -> bool {
    exists|g: int, at: int|
        #![trigger groups[g].0[at]]
        0 <= g < groups.len() && 0 <= at < groups[g].0.len() && groups[g].0[at].0 == path
            && warns_of(warning, groups[g], at)
}

/// A place is warned about in the list.
pub open spec fn is_warned(
    list: Seq<(Range, Seq<char>, Seq<((Seq<char>, Range), Seq<char>)>)>,
    group: (Seq<(Seq<char>, Range)>, int, CloneType),
    at: int,
) -> bool {
    exists|w: int| 0 <= w < list.len() && warns_of(#[trigger] list[w], group, at)
}

proof fn lemma_related(places: Seq<(Seq<char>, Range)>, n: int, except: int)
    requires
        0 <= n <= places.len(),
        0 <= except < places.len(),
    ensures
        ({
            let related = crate::lsp::related_places(places, n, except);
            &&& related.len() == (if n <= except {
                n
            } else {
                n - 1
            })
            &&& forall|j: int|
                0 <= j < related.len() ==> {
                    let other = if j < except {
                        places[j]
                    } else {
                        places[j + 1]
                    };
                    #[trigger] related[j] == (
                        other,
                        "duplicated at "@ + other.0 + ":"@ + crate::text::decimal(
                            (other.1.start.line + 1) as nat,
                        ),
                    )
                }
        }),
    decreases n,
{
    if n > 0 {
        lemma_related(places, n - 1, except);
    }
}

proof fn lemma_warns(group: (Seq<(Seq<char>, Range)>, int, CloneType), at: int)
    requires
        0 <= at < group.0.len(),
    ensures
        warns_of(crate::lsp::warning_at(group, at), group, at),
{
    lemma_related(group.0, group.0.len() as int, at);
}

#[verifier::rlimit(30)]
#[verifier::spinoff_prover]
proof fn lemma_group_warnings(
    list: Seq<(Range, Seq<char>, Seq<((Seq<char>, Range), Seq<char>)>)>,
    group: (Seq<(Seq<char>, Range)>, int, CloneType),
    n: int,
    path: Seq<char>,
)
    requires
        0 <= n <= group.0.len(),
        list.len() <= 100,
    ensures
        ({
            let after = crate::lsp::with_warnings(list, group, n, path);
            let count = places_in(group.0.take(n), path);
            &&& list.is_prefix_of(after)
            &&& after.len() == (if list.len() + count <= 100 {
                list.len() + count
            } else {
                100
            })
            &&& forall|w: int|
                list.len() <= w < after.len() ==> exists|at: int|
                    #![trigger group.0[at]]
                    0 <= at < n && group.0[at].0 == path && warns_of(
                        #[trigger] after[w],
                        group,
                        at,
                    )
            &&& forall|at: int|
                0 <= at < n && (#[trigger] group.0[at]).0 == path && list.len() + count <= 100
                    ==> is_warned(after, group, at)
        }),
    decreases n,
{
    let here = lies_there(path);
    let after = crate::lsp::with_warnings(list, group, n, path);
    if n == 0 {
        crate::sort::lemma_filter_none(group.0.take(0), here);
    } else {
        lemma_group_warnings(list, group, n - 1, path);
        let before = crate::lsp::with_warnings(list, group, n - 1, path);
        assert(group.0.take(n) =~= group.0.take(n - 1).push(group.0[n - 1]));
        crate::sort::lemma_filter_push(group.0.take(n - 1), group.0[n - 1], here);
        lemma_warns(group, n - 1);
        assert forall|w: int| list.len() <= w < after.len() implies exists|at: int|
            #![trigger group.0[at]]
            0 <= at < n && group.0[at].0 == path && warns_of(#[trigger] after[w], group, at) by {
            if w < before.len() {
                assert(after[w] == before[w]);
                let at = choose|at: int|
                    #![trigger group.0[at]]
                    0 <= at < n - 1 && group.0[at].0 == path && warns_of(before[w], group, at);
                assert(group.0[at].0 == path);
            } else {
                assert(group.0[n - 1].0 == path);
            }
        }
        let count = places_in(group.0.take(n), path);
        assert forall|at: int|
            0 <= at < n && (#[trigger] group.0[at]).0 == path && list.len() + count
                <= 100 implies is_warned(after, group, at) by {
            if at < n - 1 {
                assert(is_warned(before, group, at));
                let w = choose|w: int|
                    0 <= w < before.len() && warns_of(#[trigger] before[w], group, at);
                assert(after[w] == before[w]);
            } else {
                assert(after[before.len() as int] == crate::lsp::warning_at(group, n - 1));
            }
        }
    }
}

/// A document gets one warning for each place of a clone in it, up to a hundred: every warning is
/// about such a place, and names the range, the size and number of the clones, and all the others.
#[verifier::rlimit(30)]
#[verifier::spinoff_prover]
pub proof fn warnings_name_every_place(
    groups: Seq<(Seq<(Seq<char>, Range)>, int, CloneType)>,
    n: int,
    path: Seq<char>,
)
    requires
        0 <= n <= groups.len(),
    ensures
        ({
            let warnings = crate::lsp::warnings_for(groups, n, path);
            let count = all_places_in(groups, n, path);
            &&& warnings.len() == (if count <= 100 {
                count
            } else {
                100
            })
            &&& forall|w: int|
                0 <= w < warnings.len() ==> warns_in(groups.take(n), path, #[trigger] warnings[w])
            &&& count <= 100 ==> forall|g: int, at: int|
                0 <= g < n && 0 <= at < groups[g].0.len() && (#[trigger] groups[g].0[at]).0 == path
                    ==> is_warned(warnings, groups[g], at)
        }),
    decreases n,
{
    if n > 0 {
        warnings_name_every_place(groups, n - 1, path);
        let before = crate::lsp::warnings_for(groups, n - 1, path);
        let after = crate::lsp::warnings_for(groups, n, path);
        let group = groups[n - 1];
        lemma_group_warnings(before, group, group.0.len() as int, path);
        assert(group.0.take(group.0.len() as int) =~= group.0);
        lemma_counts(groups, n - 1, path);
        assert forall|w: int| 0 <= w < after.len() implies warns_in(
            groups.take(n),
            path,
            #[trigger] after[w],
        ) by {
            if w < before.len() {
                assert(after[w] == before[w]);
                lemma_warns_in_more(groups, n - 1, path, before[w]);
            } else {
                let at = choose|at: int|
                    #![trigger group.0[at]]
                    0 <= at < group.0.len() && group.0[at].0 == path && warns_of(
                        after[w],
                        group,
                        at,
                    );
                assert(groups.take(n)[n - 1] == group);
                assert(groups.take(n)[n - 1].0[at].0 == path);
            }
        }
        if all_places_in(groups, n, path) <= 100 {
            assert(all_places_in(groups, n - 1, path) <= 100);
            assert forall|g: int, at: int|
                0 <= g < n && 0 <= at < groups[g].0.len() && (#[trigger] groups[g].0[at]).0
                    == path implies is_warned(after, groups[g], at) by {
                if g < n - 1 {
                    lemma_still_warned(before, after, groups[g], at);
                } else {
                    assert(group.0[at].0 == path);
                }
            }
        }
    }
}

proof fn lemma_still_warned(
    list: Seq<(Range, Seq<char>, Seq<((Seq<char>, Range), Seq<char>)>)>,
    longer: Seq<(Range, Seq<char>, Seq<((Seq<char>, Range), Seq<char>)>)>,
    group: (Seq<(Seq<char>, Range)>, int, CloneType),
    at: int,
)
    requires
        list.is_prefix_of(longer),
        is_warned(list, group, at),
    ensures
        is_warned(longer, group, at),
{
    let w = choose|w: int| 0 <= w < list.len() && warns_of(#[trigger] list[w], group, at);
    assert(longer[w] == list[w]);
}

proof fn lemma_warns_in_more(
    groups: Seq<(Seq<(Seq<char>, Range)>, int, CloneType)>,
    n: int,
    path: Seq<char>,
    warning: (Range, Seq<char>, Seq<((Seq<char>, Range), Seq<char>)>),
)
    requires
        0 <= n < groups.len(),
        warns_in(groups.take(n), path, warning),
    ensures
        warns_in(groups.take(n + 1), path, warning),
{
    let fewer = groups.take(n);
    let (g, at) = choose|g: int, at: int|
        #![trigger fewer[g].0[at]]
        0 <= g < fewer.len() && 0 <= at < fewer[g].0.len() && fewer[g].0[at].0 == path && warns_of(
            warning,
            fewer[g],
            at,
        );
    assert(groups.take(n + 1)[g] == fewer[g]);
    assert(groups.take(n + 1)[g].0[at].0 == path);
}

proof fn lemma_counts(
    groups: Seq<(Seq<(Seq<char>, Range)>, int, CloneType)>,
    n: int,
    path: Seq<char>,
)
    ensures
        0 <= all_places_in(groups, n, path),
    decreases n,
{
    if n > 0 {
        lemma_counts(groups, n - 1, path);
    }
}

/// The warnings about the groups that come first stand first.
pub proof fn warnings_keep_the_order_of_groups(
    groups: Seq<(Seq<(Seq<char>, Range)>, int, CloneType)>,
    n: int,
    path: Seq<char>,
)
    requires
        0 < n <= groups.len(),
    ensures
        crate::lsp::warnings_for(groups, n - 1, path).is_prefix_of(
            crate::lsp::warnings_for(groups, n, path),
        ),
{
    warnings_name_every_place(groups, n - 1, path);
    let group = groups[n - 1];
    lemma_group_warnings(
        crate::lsp::warnings_for(groups, n - 1, path),
        group,
        group.0.len() as int,
        path,
    );
}

/// The files of an analysis are those of the index that are not open, in order, and then the open
/// ones: what is open stands for what is on disk.
pub proof fn open_documents_stand_for_their_files(files: Seq<SourceFile>, open: Seq<&SourceFile>)
    ensures
        ({
            let closed = files.filter(
                |file: SourceFile|
                    forall|i: int| 0 <= i < open.len() ==> (#[trigger] open[i]).path@ != file.path@,
            );
            let analyzed = crate::lsp::analyzed_files(files, open);
            &&& analyzed.len() == closed.len() + open.len()
            &&& forall|i: int| 0 <= i < closed.len() ==> *#[trigger] analyzed[i] == closed[i]
            &&& forall|i: int|
                0 <= i < open.len() ==> *#[trigger] analyzed[closed.len() + i] == *open[i]
        }),
{
    lemma_closed(files, open, files.len() as int);
    assert(files.take(files.len() as int) =~= files);
}

proof fn lemma_closed(files: Seq<SourceFile>, open: Seq<&SourceFile>, n: int)
    requires
        0 <= n <= files.len(),
    ensures
        ({
            let closed = files.take(n).filter(
                |file: SourceFile|
                    forall|i: int| 0 <= i < open.len() ==> (#[trigger] open[i]).path@ != file.path@,
            );
            let kept = crate::lsp::closed_files(files, open, n);
            &&& kept.len() == closed.len()
            &&& forall|i: int| 0 <= i < closed.len() ==> *#[trigger] kept[i] == closed[i]
        }),
    decreases n,
{
    let is_closed = |file: SourceFile|
        forall|i: int| 0 <= i < open.len() ==> (#[trigger] open[i]).path@ != file.path@;
    if n == 0 {
        crate::sort::lemma_filter_none(files.take(0), is_closed);
    } else {
        lemma_closed(files, open, n - 1);
        assert(files.take(n) =~= files.take(n - 1).push(files[n - 1]));
        crate::sort::lemma_filter_push(files.take(n - 1), files[n - 1], is_closed);
    }
}

/// The characters from one to another are a line, or begin one.
pub open spec fn begins_line(text: Seq<char>, from: int, to: int) -> bool {
    &&& 0 <= from <= to <= text.len()
    &&& from == 0 || text[from - 1] == '\n'
    &&& forall|i: int| from <= i < to ==> #[trigger] text[i] != '\n'
}

/// A line feed.
pub open spec fn is_feed() -> spec_fn(char) -> bool {
    |c: char| c == '\n'
}

/// A character that UTF-16 writes with two units.
pub open spec fn is_wide() -> spec_fn(char) -> bool {
    |c: char| c as u32 > 0xffff
}

/// How many of the first `k` characters are line feeds.
pub open spec fn feeds_before(text: Seq<char>, k: int) -> int {
    text.take(k).filter(is_feed()).len() as int
}

/// How many units UTF-16 has for a part of a text.
pub open spec fn units_between(text: Seq<char>, from: int, to: int) -> int {
    to - from + text.subrange(from, to).filter(is_wide()).len()
}

proof fn lemma_units_step(text: Seq<char>, from: int, to: int)
    requires
        0 <= from < to <= text.len(),
    ensures
        units_between(text, from, to) == units_between(text, from, to - 1)
            + crate::positions::utf16_len(text[to - 1]),
        units_between(text, from, to) == units_between(text, from + 1, to)
            + crate::positions::utf16_len(text[from]),
{
    let part = text.subrange(from, to);
    assert(part =~= text.subrange(from, to - 1).push(text[to - 1]));
    crate::sort::lemma_filter_push(text.subrange(from, to - 1), text[to - 1], is_wide());
    let first = seq![text[from]];
    assert(part =~= first + text.subrange(from + 1, to));
    crate::sort::lemma_filter_add(first, text.subrange(from + 1, to), is_wide());
    assert(first =~= Seq::<char>::empty().push(text[from]));
    crate::sort::lemma_filter_push(Seq::<char>::empty(), text[from], is_wide());
    crate::sort::lemma_filter_none(Seq::<char>::empty(), is_wide());
}

proof fn lemma_no_units(text: Seq<char>, at: int)
    requires
        0 <= at <= text.len(),
    ensures
        units_between(text, at, at) == 0,
{
    crate::sort::lemma_filter_none(text.subrange(at, at), is_wide());
}

proof fn lemma_feeds(text: Seq<char>, k: int)
    requires
        0 <= k <= text.len(),
    ensures
        crate::positions::line_number(text, k) == feeds_before(text, k),
    decreases k,
{
    if k == 0 {
        crate::sort::lemma_filter_none(text.take(0), is_feed());
    } else {
        lemma_feeds(text, k - 1);
        assert(text.take(k) =~= text.take(k - 1).push(text[k - 1]));
        crate::sort::lemma_filter_push(text.take(k - 1), text[k - 1], is_feed());
    }
}

proof fn lemma_column(text: Seq<char>, from: int, k: int)
    requires
        begins_line(text, from, k),
    ensures
        crate::positions::column(text, k) == units_between(text, from, k),
    decreases k - from,
{
    if from < k {
        assert(text[k - 1] != '\n');
        lemma_column(text, from, k - 1);
        lemma_units_step(text, from, k);
    } else {
        lemma_no_units(text, k);
    }
}

/// The position of a byte that begins a character: its line is the number of line feeds before it,
/// its column the number of UTF-16 units from the beginning of the line. It leads back there.
pub proof fn positions_count_lines_and_units(text: Seq<char>, from: int, k: int)
    requires
        begins_line(text, from, k),
        encode_utf8(text).len() <= u32::MAX,
    ensures
        ({
            let position = crate::positions::byte_position(
                encode_utf8(text),
                encode_utf8(text.take(k)).len() as int,
            );
            &&& position.line == feeds_before(text, k)
            &&& position.character == units_between(text, from, k)
            &&& crate::positions::index_at(text, position) == k
        }),
{
    crate::positions::position_round_trips(text, k);
    crate::positions::lemma_column_bound(text, k);
    crate::positions::lemma_offset_grows(text, k, text.len() as int);
    assert(text.take(text.len() as int) =~= text);
    lemma_feeds(text, k);
    lemma_column(text, from, k);
}

proof fn lemma_advance(text: Seq<char>, from: int, end: int, units: int)
    requires
        0 <= from <= end <= text.len(),
        forall|i: int| from <= i < end ==> #[trigger] text[i] != '\n',
        end == text.len() || text[end] == '\n',
    ensures
        ({
            let k = crate::positions::advanced(text, from, units);
            &&& from <= k <= end
            &&& k < end ==> units_between(text, from, k) >= units
            &&& from < k ==> units_between(text, from, k - 1) < units
        }),
    decreases end - from,
{
    lemma_no_units(text, from);
    if from < end && units > 0 {
        let rest = units - crate::positions::utf16_len(text[from]);
        lemma_advance(text, from + 1, end, rest);
        let k = crate::positions::advanced(text, from + 1, rest);
        lemma_units_step(text, from, k);
        if from + 1 < k {
            lemma_units_step(text, from, k - 1);
        }
    }
}

proof fn lemma_last_line(text: Seq<char>, from: int, n: int, line: int)
    requires
        begins_line(text, from, n),
        crate::positions::line_number(text, from) <= line,
    ensures
        crate::positions::line_begin(text, n, line) == from,
    decreases n - from,
{
    if from < n {
        assert(text[n - 1] != '\n');
        lemma_last_line(text, from, n - 1, line);
    }
}

/// A position leads to the first character of its line whose column is not before it, and to the
/// end of the line if there is none. A line behind the last one stands for the last.
pub proof fn positions_lead_into_their_lines(
    text: Seq<char>,
    from: int,
    end: int,
    position: Position,
)
    requires
        begins_line(text, from, end),
        end == text.len() || text[end] == '\n',
        position.line == feeds_before(text, from) || (end == text.len() && position.line
            > feeds_before(text, from)),
    ensures
        ({
            let k = crate::positions::index_at(text, position);
            &&& from <= k <= end
            &&& k < end ==> units_between(text, from, k) >= position.character
            &&& from < k ==> units_between(text, from, k - 1) < position.character
        }),
{
    lemma_feeds(text, from);
    if end == text.len() {
        lemma_last_line(text, from, end, position.line as int);
    } else {
        crate::positions::lemma_line_begin_stays(text, from, text.len() as int);
    }
    lemma_advance(text, from, end, position.character as int);
}

/// A change replaces the characters between two positions, keeps the others, and notes the bytes
/// of the new text. One without a range replaces the text, and one whose range ends before it
/// begins changes nothing.
pub proof fn changes_replace_what_they_name(
    text: Seq<char>,
    change: TextChange,
    regions: Seq<(usize, usize)>,
    a: int,
    b: int,
)
    requires
        0 <= a <= text.len(),
        0 <= b <= text.len(),
        encode_utf8(text).len() <= u32::MAX,
        encode_utf8(text).len() + encode_utf8(change.text@).len() <= usize::MAX,
        change.range matches Some(range) ==> range.start == crate::positions::byte_position(
            encode_utf8(text),
            encode_utf8(text.take(a)).len() as int,
        ) && range.end == crate::positions::byte_position(
            encode_utf8(text),
            encode_utf8(text.take(b)).len() as int,
        ),
    ensures
        change.range is None ==> crate::positions::changed_text(text, change) == change.text@
            && crate::positions::changed_regions(text, change, regions) == seq![
            (0usize, encode_utf8(change.text@).len() as usize),
        ],
        change.range is Some && a <= b ==> crate::positions::changed_text(text, change)
            == text.take(a) + change.text@ + text.skip(b) && ({
            let noted = crate::positions::changed_regions(text, change, regions);
            &&& noted.len() == regions.len() + 1
            &&& regions.is_prefix_of(noted)
            &&& noted.last().0 == encode_utf8(text.take(a)).len()
            &&& noted.last().1 == encode_utf8(text.take(a)).len() + encode_utf8(change.text@).len()
        }),
        change.range is Some && b < a ==> crate::positions::changed_text(text, change) == text
            && crate::positions::changed_regions(text, change, regions) == regions,
{
    crate::positions::position_round_trips(text, a);
    crate::positions::position_round_trips(text, b);
    crate::positions::lemma_offset_grows(text, a, text.len() as int);
    assert(text.take(text.len() as int) =~= text);
}

/// Of the bytes from one to another, how many begin a character.
pub open spec fn characters_begun(bytes: Seq<u8>, from: int, to: int) -> int {
    bytes.subrange(from, to).filter(|byte: u8| byte < 0x80 || byte > 0xbf).len() as int
}

/// Of the bytes from one to another, how many begin a character of four bytes.
pub open spec fn long_characters_begun(bytes: Seq<u8>, from: int, to: int) -> int {
    bytes.subrange(from, to).filter(|byte: u8| byte >= 0xf0).len() as int
}

proof fn lemma_byte_column(bytes: Seq<u8>, from: int, n: int)
    requires
        0 <= from <= n <= bytes.len(),
        from == 0 || bytes[from - 1] == 10u8,
        forall|i: int| from <= i < n ==> #[trigger] bytes[i] != 10u8,
    ensures
        crate::positions::byte_column(bytes, n) == characters_begun(bytes, from, n)
            + long_characters_begun(bytes, from, n),
    decreases n - from,
{
    let begins = |byte: u8| byte < 0x80 || byte > 0xbf;
    let is_long = |byte: u8| byte >= 0xf0;
    let part = bytes.subrange(from, n);
    if from == n {
        crate::sort::lemma_filter_none(part, begins);
        crate::sort::lemma_filter_none(part, is_long);
    } else {
        lemma_byte_column(bytes, from, n - 1);
        let shorter = bytes.subrange(from, n - 1);
        assert(bytes[n - 1] != 10u8);
        assert(part =~= shorter.push(bytes[n - 1]));
        crate::sort::lemma_filter_push(shorter, bytes[n - 1], begins);
        crate::sort::lemma_filter_push(shorter, bytes[n - 1], is_long);
    }
}

/// An occurrence is shown from the first byte of its first token to the last byte of its last, in
/// the file that it lies in.
#[verifier::rlimit(30)]
#[verifier::spinoff_prover]
pub proof fn occurrences_are_shown_where_they_stand(
    files: Seq<&SourceFile>,
    occurrence: Occurrence,
    from: int,
    to: int,
)
    requires
        crate::matching::files_wf(files),
        crate::matching::occurs(files, occurrence),
        ({
            let bytes = encode_utf8(files[occurrence.file as int].text@);
            let start = files[occurrence.file as int].tokens@[occurrence.start as int].start;
            let end = files[occurrence.file as int].tokens@[occurrence.end - 1].end;
            &&& 0 <= from <= start && (from == 0 || bytes[from - 1] == 10u8)
            &&& forall|i: int| from <= i < start ==> #[trigger] bytes[i] != 10u8
            &&& 0 <= to <= end && (to == 0 || bytes[to - 1] == 10u8)
            &&& forall|i: int| to <= i < end ==> #[trigger] bytes[i] != 10u8
        }),
    ensures
        ({
            let file = files[occurrence.file as int];
            let bytes = encode_utf8(file.text@);
            let start = file.tokens@[occurrence.start as int].start as int;
            let end = file.tokens@[occurrence.end - 1].end as int;
            let (path, range) = crate::lsp::nav_place(files, occurrence);
            &&& path == file.path@
            &&& range.start.line == crate::meaning::feeds(bytes, start)
            &&& range.start.character == (characters_begun(bytes, from, start)
                + long_characters_begun(bytes, from, start)) as u32
            &&& range.end.line == crate::meaning::feeds(bytes, end)
            &&& range.end.character == (characters_begun(bytes, to, end) + long_characters_begun(
                bytes,
                to,
                end,
            )) as u32
        }),
{
    let file = files[occurrence.file as int];
    let bytes = file.bytes();
    let first = file.tokens@[occurrence.start as int];
    let last = file.tokens@[occurrence.end - 1];
    assert(file.wf());
    assert(crate::encode::token_within(first, bytes.len()));
    assert(crate::encode::token_within(last, bytes.len()));
    crate::meaning::lines_are_told_by_line_feeds(bytes, first.start as int);
    crate::meaning::lines_are_told_by_line_feeds(bytes, last.end as int);
    crate::model::lemma_line_starts(bytes, first.start as int);
    crate::model::lemma_line_starts(bytes, last.end as int);
    lemma_byte_column(bytes, from, first.start as int);
    lemma_byte_column(bytes, to, last.end as int);
}

/// The tokens that are looked at for changed bytes: from a window before the first token that ends
/// behind their beginning to a window behind the last token that begins before their end.
pub proof fn changed_bytes_reach_a_window_around(
    file: SourceFile,
    start: int,
    end: int,
    window: int,
    first: int,
    last: int,
)
    requires
        0 <= window,
        0 <= first <= file.tokens@.len(),
        0 <= last <= file.tokens@.len(),
        forall|i: int|
            0 <= i < file.tokens@.len() ==> ((#[trigger] file.tokens@[i]).end <= start <==> i
                < first),
        forall|i: int|
            0 <= i < file.tokens@.len() ==> ((#[trigger] file.tokens@[i]).start < end <==> i
                < last),
    ensures
        ({
            let (from, to) = crate::regions::bytes_range(file, start, end, window);
            let count = file.tokens@.len();
            &&& from == (if first <= window {
                0
            } else {
                first - window
            })
            &&& first <= last ==> to == (if last + window <= count {
                last + window
            } else {
                count as int
            })
            &&& last < first ==> to == (if first + window <= count {
                first + window
            } else {
                count as int
            })
        }),
{
    let n = file.tokens@.len() as int;
    crate::regions::lemma_ending_by(file.tokens@, start, n, first);
    crate::regions::lemma_starting_before(file.tokens@, end, n, last);
}

/// A span is told by the signatures of the windows that share a token with it.
pub proof fn spans_are_told_by_the_windows_on_them(
    file: SourceFile,
    start: int,
    end: int,
    window: int,
    parameterize_literals: bool,
    signature: u64,
)
    requires
        file.wf(),
        0 < window,
        0 <= start <= end <= file.tokens@.len(),
    ensures
        crate::detect::span_signatures(
            file,
            start,
            end,
            window,
            parameterize_literals,
        ).contains(signature) <==> exists|at: int|
            #![trigger crate::encode::signatures_of(file.hashes@, window, parameterize_literals)[at]]
            {
                &&& 0 <= at && at + window <= file.tokens@.len()
                &&& start < end && at < end && start < at + window
                &&& crate::encode::signatures_of(
                    file.hashes@,
                    window,
                    parameterize_literals,
                )[at] == signature
            },
{
}

proof fn lemma_occurrence_windows(
    files: Seq<&SourceFile>,
    occurrences: Seq<Occurrence>,
    n: int,
    config: Config,
    signature: u64,
)
    requires
        0 <= n <= occurrences.len(),
    ensures
        crate::lsp::occurrence_signatures(files, occurrences, n, config).contains(signature)
            <==> exists|k: int|
            0 <= k < n && #[trigger] is_told_by(files, occurrences[k], config, signature),
    decreases n,
{
    if n > 0 {
        lemma_occurrence_windows(files, occurrences, n - 1, config, signature);
        if is_told_by(files, occurrences[n - 1], config, signature) {
            assert(0 <= n - 1 < n);
        }
        if exists|k: int|
            0 <= k < n && #[trigger] is_told_by(files, occurrences[k], config, signature) {
            let k = choose|k: int|
                0 <= k < n && #[trigger] is_told_by(files, occurrences[k], config, signature);
            if k < n - 1 {
                assert(is_told_by(files, occurrences[k], config, signature));
            }
        }
    }
}

/// The signature is that of a window on an occurrence.
pub open spec fn is_told_by(
    files: Seq<&SourceFile>,
    occurrence: Occurrence,
    config: Config,
    signature: u64,
) -> bool {
    crate::detect::span_signatures(
        *files[occurrence.file as int],
        occurrence.start as int,
        occurrence.end as int,
        config.seed_window as int,
        config.parameterize_literals,
    ).contains(signature)
}

/// What an analysis remembers are the signatures on all the occurrences that it shows, and no
/// others.
#[verifier::rlimit(30)]
#[verifier::spinoff_prover]
pub proof fn shown_occurrences_are_remembered(
    files: Seq<&SourceFile>,
    groups: Seq<(Seq<Occurrence>, int, CloneType)>,
    n: int,
    config: Config,
    signature: u64,
)
    requires
        0 <= n <= groups.len(),
    ensures
        crate::lsp::group_signatures(files, groups, n, config).contains(signature) <==> exists|
            g: int,
            k: int,
        |
            0 <= g < n && 0 <= k < groups[g].0.len() && #[trigger] is_told_by(
                files,
                groups[g].0[k],
                config,
                signature,
            ),
    decreases n,
{
    if n > 0 {
        shown_occurrences_are_remembered(files, groups, n - 1, config, signature);
        let last = groups[n - 1].0;
        lemma_occurrence_windows(files, last, last.len() as int, config, signature);
        if crate::lsp::occurrence_signatures(files, last, last.len() as int, config).contains(
            signature,
        ) {
            let k = choose|k: int|
                0 <= k < last.len() && #[trigger] is_told_by(files, last[k], config, signature);
            assert(is_told_by(files, groups[n - 1].0[k], config, signature));
        }
        if exists|g: int, k: int|
            0 <= g < n && 0 <= k < groups[g].0.len() && #[trigger] is_told_by(
                files,
                groups[g].0[k],
                config,
                signature,
            ) {
            let (g, k) = choose|g: int, k: int|
                0 <= g < n && 0 <= k < groups[g].0.len() && #[trigger] is_told_by(
                    files,
                    groups[g].0[k],
                    config,
                    signature,
                );
            assert(is_told_by(files, groups[g].0[k], config, signature));
            if g == n - 1 {
                assert(is_told_by(files, last[k], config, signature));
            }
        }
    }
}

/// The source of a path is the first open document with that path; only without one it is the
/// first file of the index with that path.
pub proof fn open_documents_come_before_the_index(
    files: Seq<SourceFile>,
    open: Seq<&SourceFile>,
    path: Seq<char>,
    from: int,
)
    requires
        0 <= from <= open.len(),
    ensures
        ({
            let source = crate::lsp::source_of(files, open, path, from);
            &&& forall|i: int|
                from <= i < open.len() && (#[trigger] open[i]).path@ == path && (forall|j: int|
                    from <= j < i ==> (#[trigger] open[j]).path@ != path) ==> source == Some(
                    *open[i],
                )
            &&& (forall|i: int| from <= i < open.len() ==> (#[trigger] open[i]).path@ != path) ==> {
                &&& forall|f: int|
                    0 <= f < files.len() && (#[trigger] files[f]).path@ == path && (forall|h: int|
                        0 <= h < f ==> (#[trigger] files[h]).path@ != path) ==> source == Some(
                        files[f],
                    )
                &&& (forall|f: int|
                    0 <= f < files.len() ==> (#[trigger] files[f]).path@ != path) ==> source is None
            }
        }),
    decreases open.len() - from,
{
    if from < open.len() {
        if open[from].path@ != path {
            open_documents_come_before_the_index(files, open, path, from + 1);
        }
    } else {
        lemma_first_file(files, path, 0);
    }
}

proof fn lemma_first_file(files: Seq<SourceFile>, path: Seq<char>, from: int)
    requires
        0 <= from <= files.len(),
    ensures
        ({
            let first = crate::index::first_of(crate::index::paths_of(files), path, from);
            &&& forall|f: int|
                from <= f < files.len() && (#[trigger] files[f]).path@ == path && (forall|h: int|
                    from <= h < f ==> (#[trigger] files[h]).path@ != path) ==> first == Some(f)
            &&& (forall|f: int| from <= f < files.len() ==> (#[trigger] files[f]).path@ != path)
                ==> first is None
        }),
    decreases files.len() - from,
{
    if from < files.len() {
        if files[from].path@ != path {
            lemma_first_file(files, path, from + 1);
        }
    }
}

/// The signature is that of a window that a noted change reaches.
pub open spec fn is_noted_by(
    files: Seq<SourceFile>,
    open: Seq<&SourceFile>,
    path: Seq<char>,
    change: Change,
    config: Config,
    signature: u64,
) -> bool {
    match crate::lsp::source_of(files, open, path, 0) {
        None => false,
        Some(file) => {
            let window = config.seed_window as int;
            let pl = config.parameterize_literals;
            match change {
                Change::Whole => crate::detect::span_signatures(
                    file,
                    0,
                    file.tokens@.len() as int,
                    window,
                    pl,
                ).contains(signature),
                Change::Bytes(ranges) => exists|r: int|
                    0 <= r < ranges.len() && {
                        let (start, end) = crate::regions::bytes_range(
                            file,
                            (#[trigger] ranges[r]).0 as int,
                            ranges[r].1 as int,
                            window,
                        );
                        crate::detect::span_signatures(file, start, end, window, pl).contains(
                            signature,
                        )
                    },
            }
        },
    }
}

proof fn lemma_range_windows(
    file: SourceFile,
    ranges: Seq<(usize, usize)>,
    n: int,
    config: Config,
    signature: u64,
)
    requires
        0 <= n <= ranges.len(),
    ensures
        crate::lsp::range_signatures(file, ranges, n, config).contains(signature) <==> exists|
            r: int,
        |
            0 <= r < n && {
                let (start, end) = crate::regions::bytes_range(
                    file,
                    (#[trigger] ranges[r]).0 as int,
                    ranges[r].1 as int,
                    config.seed_window as int,
                );
                crate::detect::span_signatures(
                    file,
                    start,
                    end,
                    config.seed_window as int,
                    config.parameterize_literals,
                ).contains(signature)
            },
    decreases n,
{
    if n > 0 {
        lemma_range_windows(file, ranges, n - 1, config, signature);
        assert(ranges[n - 1] == ranges[n - 1]);
    }
}

/// What has changed since the last analysis is looked at: the signatures of the windows that the
/// noted changes reach, and no others.
pub proof fn noted_changes_are_looked_at(
    files: Seq<SourceFile>,
    open: Seq<&SourceFile>,
    notes: Seq<(String, crate::pending::ChangedRegion)>,
    n: int,
    config: Config,
    signature: u64,
)
    requires
        0 <= n <= notes.len(),
    ensures
        crate::lsp::touched_signatures(files, open, notes, n, config).contains(signature)
            <==> exists|i: int|
            0 <= i < n && is_noted_by(
                files,
                open,
                (#[trigger] notes[i]).0@,
                notes[i].1.change(),
                config,
                signature,
            ),
    decreases n,
{
    if n > 0 {
        noted_changes_are_looked_at(files, open, notes, n - 1, config, signature);
        let note = notes[n - 1];
        match crate::lsp::source_of(files, open, note.0@, 0) {
            Some(file) => {
                match note.1.change() {
                    Change::Whole => {},
                    Change::Bytes(ranges) => {
                        lemma_range_windows(file, ranges, ranges.len() as int, config, signature);
                    },
                }
            },
            None => {},
        }
    }
}

/// Ranges are noted behind those that are noted already; a file that is noted whole stays so.
pub proof fn noted_ranges_are_kept(
    noted: Option<Change>,
    first: Seq<(usize, usize)>,
    second: Seq<(usize, usize)>,
)
    ensures
        crate::lsp::with_ranges(crate::lsp::with_ranges(noted, first), second)
            == crate::lsp::with_ranges(noted, first + second),
        crate::lsp::with_ranges(Some(Change::Whole), first) == Some(Change::Whole),
        first.len() > 0 ==> crate::lsp::with_ranges(None, first) == Some(Change::Bytes(first)),
        first.len() == 0 ==> crate::lsp::with_ranges(noted, first) == noted,
        first.len() > 0 ==> crate::lsp::with_ranges(Some(Change::Bytes(second)), first) == Some(
            Change::Bytes(second + first),
        ),
{
    assert(first.len() == 0 ==> first + second =~= second);
    assert(second.len() == 0 ==> first + second =~= first);
    if let Some(Change::Bytes(earlier)) = noted {
        assert((earlier + first) + second =~= earlier + (first + second));
    }
}

/// A group is shown exactly if it is detected and has an occurrence in an open document.
pub proof fn groups_of_open_documents_are_shown(
    files: Seq<&SourceFile>,
    open: Seq<&SourceFile>,
    allowed: Set<u64>,
    config: Config,
    group: (Seq<Occurrence>, int, CloneType),
)
    ensures
        crate::lsp::shown_groups(files, open, allowed, config).contains(group)
            <==> crate::detect::detected(files, config, Some(allowed)).contains(group) && exists|
            i: int,
            d: int,
        |
            0 <= i < group.0.len() && 0 <= d < open.len() && files[(
            #[trigger] group.0[i]).file as int].path@ == (#[trigger] open[d]).path@,
{
    let found = crate::detect::detected(files, config, Some(allowed));
    let concerns = crate::lsp::concerns_open(files, open);
    let shown = found.filter(concerns);
    if shown.contains(group) {
        let g = choose|g: int| 0 <= g < shown.len() && shown[g] == group;
        found.lemma_filter_pred(concerns, g);
        found.lemma_filter_contains_rev(concerns, group);
        let i = choose|i: int|
            0 <= i < group.0.len() && crate::lsp::is_open(
                open,
                files[(#[trigger] group.0[i]).file as int].path@,
            );
        let d = choose|d: int|
            0 <= d < open.len() && (#[trigger] open[d]).path@ == files[group.0[i].file as int].path@;
        assert(files[group.0[i].file as int].path@ == open[d].path@);
    }
    if found.contains(group) && concerns(group) {
        let g = choose|g: int| 0 <= g < found.len() && found[g] == group;
        found.lemma_filter_contains(concerns, g);
    }
    assert(forall|i: int, d: int|
        0 <= i < group.0.len() && 0 <= d < open.len() && files[(
        #[trigger] group.0[i]).file as int].path@ == (#[trigger] open[d]).path@
            ==> crate::lsp::is_open(open, files[group.0[i].file as int].path@));
}

/// A document is opened exactly if its language is known, it lies in the workspace, and it is not
/// too large.
pub proof fn documents_are_opened_in_their_language(
    path: Seq<char>,
    len: int,
    root: Seq<char>,
    max_file_bytes: u64,
)
    ensures
        crate::lsp::opened_language(path, len, root, max_file_bytes) is Some
            <==> crate::language::path_language(path) is Some && crate::paths::relative_to(
            path,
            root,
        ) is Some && len <= max_file_bytes,
        crate::lsp::opened_language(path, len, root, max_file_bytes) matches Some(language) ==> Some(
            language,
        ) == crate::language::path_language(path),
{
}

/// What is noted of a path is what the first note of it says.
pub proof fn notes_are_found_by_their_path(
    notes: Seq<(String, crate::pending::ChangedRegion)>,
    path: Seq<char>,
    from: int,
)
    requires
        0 <= from <= notes.len(),
    ensures
        crate::pending::noted(notes, path, from) is None <==> forall|i: int|
            from <= i < notes.len() ==> (#[trigger] notes[i]).0@ != path,
        forall|i: int|
            from <= i < notes.len() && (#[trigger] notes[i]).0@ == path && (forall|j: int|
                from <= j < i ==> (#[trigger] notes[j]).0@ != path) ==> crate::pending::noted(
                notes,
                path,
                from,
            ) == Some(notes[i].1.change()),
    decreases notes.len() - from,
{
    if from < notes.len() && notes[from].0@ != path {
        notes_are_found_by_their_path(notes, path, from + 1);
    }
}

/// Edits are made one after the other: to make some and then others is to make them all.
pub proof fn edits_follow_each_other(
    text: Seq<char>,
    first: Seq<TextChange>,
    second: Seq<TextChange>,
    n: int,
)
    requires
        0 <= n <= second.len(),
    ensures
        ({
            let between = crate::lsp::edited_text(text, first, first.len() as int);
            crate::lsp::edited_text(text, first + second, first.len() + n)
                == crate::lsp::edited_text(between, second, n)
        }),
        crate::lsp::edited_text(text, first, 0) == text,
        first.len() > 0 ==> crate::lsp::edited_text(text, first, 1)
            == crate::positions::changed_text(text, first[0]),
    decreases n,
{
    reveal_with_fuel(crate::lsp::edited_text, 2);
    if n > 0 {
        edits_follow_each_other(text, first, second, n - 1);
        assert((first + second)[first.len() + n - 1] == second[n - 1]);
    } else {
        lemma_first_edits(text, first, second, first.len() as int);
    }
}

proof fn lemma_first_edits(
    text: Seq<char>,
    first: Seq<TextChange>,
    second: Seq<TextChange>,
    n: int,
)
    requires
        0 <= n <= first.len(),
    ensures
        crate::lsp::edited_text(text, first + second, n) == crate::lsp::edited_text(text, first, n),
    decreases n,
{
    if n > 0 {
        lemma_first_edits(text, first, second, n - 1);
        assert((first + second)[n - 1] == first[n - 1]);
    }
}

/// References come in the order of the groups and, within a group, of its places.
pub proof fn references_come_in_order(
    groups: Seq<(Seq<(Seq<char>, Range)>, int, CloneType)>,
    n: int,
    path: Seq<char>,
    position: Position,
    others_only: bool,
)
    requires
        0 < n <= groups.len(),
    ensures
        crate::navigation::places_found(groups, n - 1, path, position, others_only).is_prefix_of(
            crate::navigation::places_found(groups, n, path, position, others_only),
        ),
        n == 1 && !others_only && groups[0].0.no_duplicates() && crate::meaning::has_one_at(
            groups[0],
            path,
            position,
        ) ==> crate::navigation::places_found(groups, n, path, position, others_only)
            == groups[0].0,
{
    let before = crate::navigation::places_found(groups, n - 1, path, position, others_only);
    let places = groups[n - 1].0;
    lemma_places_grow(before, places, places.len() as int, path, position, others_only);
    if n == 1 && !others_only && places.no_duplicates() {
        lemma_all_places(places, places.len() as int, path, position);
        assert(places.take(places.len() as int) =~= places);
        reveal_with_fuel(crate::navigation::places_found, 2);
        assert(before =~= Seq::empty());
        if crate::meaning::has_one_at(groups[0], path, position) {
            let i = choose|i: int|
                0 <= i < places.len() && crate::meaning::stands_at(
                    #[trigger] places[i],
                    path,
                    position,
                );
            assert(crate::navigation::is_at(places[i], path, position));
        }
    }
}

proof fn lemma_places_grow(
    list: Seq<(Seq<char>, Range)>,
    places: Seq<(Seq<char>, Range)>,
    n: int,
    path: Seq<char>,
    position: Position,
    others_only: bool,
)
    ensures
        list.is_prefix_of(
            crate::navigation::with_places(list, places, n, path, position, others_only),
        ),
    decreases n,
{
    if n > 0 {
        lemma_places_grow(list, places, n - 1, path, position, others_only);
    }
}

proof fn lemma_all_places(
    places: Seq<(Seq<char>, Range)>,
    n: int,
    path: Seq<char>,
    position: Position,
)
    requires
        places.no_duplicates(),
        0 <= n <= places.len(),
    ensures
        crate::navigation::with_places(
            Seq::empty(),
            places,
            n,
            path,
            position,
            false,
        ) == places.take(n),
    decreases n,
{
    if n > 0 {
        lemma_all_places(places, n - 1, path, position);
        let before = places.take(n - 1);
        assert(!before.contains(places[n - 1])) by {
            if before.contains(places[n - 1]) {
                let i = choose|i: int| 0 <= i < before.len() && before[i] == places[n - 1];
                assert(places[i] == places[n - 1]);
            }
        }
        assert(places.take(n) =~= before.push(places[n - 1]));
    } else {
        assert(places.take(0) =~= Seq::empty());
    }
}

/// What an analysis shows a document: a warning at every occurrence in it, as far as there are no
/// more than a hundred.
#[verifier::rlimit(30)]
#[verifier::spinoff_prover]
pub proof fn analyses_warn_of_every_occurrence(
    analysis: crate::lsp::Analysis,
    files: Seq<&SourceFile>,
    open: Seq<&SourceFile>,
    groups: Seq<(Seq<Occurrence>, int, CloneType)>,
    config: Config,
    d: int,
    g: int,
    k: int,
)
    requires
        crate::lsp::is_analysis(analysis, files, open, groups, config),
        0 <= d < open.len(),
        0 <= g < groups.len(),
        0 <= k < groups[g].0.len(),
        files[groups[g].0[k].file as int].path@ == open[d].path@,
        all_places_in(
            crate::navigation::nav_values(analysis.groups@),
            groups.len() as int,
            open[d].path@,
        ) <= 100,
    ensures
        analysis.groups@.len() == groups.len(),
        analysis.diagnostics@.len() == open.len(),
        exists|w: int|
            {
                &&& 0 <= w < analysis.diagnostics@[d]@.len()
                &&& (#[trigger] analysis.diagnostics@[d]@[w]).range == crate::lsp::nav_place(
                    files,
                    groups[g].0[k],
                ).1
                &&& analysis.diagnostics@[d]@[w].related@.len() == groups[g].0.len() - 1
            },
{
    let nav = crate::navigation::nav_values(analysis.groups@);
    let wanted = groups.map_values(
        |group: (Seq<Occurrence>, int, CloneType)| crate::lsp::nav_group(files, group),
    );
    assert(nav == wanted);
    assert(nav.len() == groups.len());
    let n = groups.len() as int;
    let path = open[d].path@;
    let warnings = analysis.diagnostics@[d]@;
    let values = crate::lsp::diagnostic_values(warnings);
    assert(values == crate::lsp::warnings_for(nav, n, path));
    warnings_name_every_place(nav, n, path);
    assert(nav[g] == crate::lsp::nav_group(files, groups[g]));
    assert(nav[g].0[k] == crate::lsp::nav_place(files, groups[g].0[k]));
    assert(nav[g].0[k].0 == path);
    assert(is_warned(values, nav[g], k));
    let w = choose|w: int| 0 <= w < values.len() && warns_of(#[trigger] values[w], nav[g], k);
    assert(values[w] == warnings[w].values());
}

/// The lines of a file begin where they are looked for: the first byte behind as many line feeds as
/// there are lines before.
pub proof fn lines_begin_behind_line_feeds(file: SourceFile, line: int, at: int)
    requires
        file.wf(),
        1 <= line,
        0 <= at <= encode_utf8(file.text@).len(),
        at == 0 || encode_utf8(file.text@)[at - 1] == 10u8,
        crate::meaning::feeds(encode_utf8(file.text@), at) == line - 1,
    ensures
        file.start_of_line(line) == at,
{
    let bytes = file.bytes();
    let n = bytes.len() as int;
    crate::meaning::lines_are_told_by_line_feeds(bytes, at);
    lemma_line_start(bytes, n, at);
}

proof fn lemma_line_start(bytes: Seq<u8>, n: int, at: int)
    requires
        0 <= at <= n <= bytes.len() <= u32::MAX,
        at == 0 || bytes[at - 1] == 10u8,
    ensures
        crate::model::line_feeds(bytes, at) < crate::model::line_starts_of(bytes, n).len(),
        crate::model::line_starts_of(bytes, n)[crate::model::line_feeds(bytes, at) as int] == at,
    decreases n,
{
    crate::model::lemma_line_starts(bytes, n);
    if at < n {
        lemma_line_start(bytes, n - 1, at);
    } else if n > 0 {
        crate::model::lemma_line_starts(bytes, n - 1);
    }
}

/// Documents are told by their paths: which are open, which are listed, and which lie in the
/// workspace.
pub proof fn documents_are_told_by_their_paths(
    open: Seq<&SourceFile>,
    listed: Seq<String>,
    path: Seq<char>,
    file: &SourceFile,
    root: Seq<char>,
)
    ensures
        crate::lsp::is_open(open, path) <==> open.map_values(
            |document: &SourceFile| document.path@,
        ).contains(path),
        crate::lsp::is_listed(listed, path) <==> listed.map_values(|name: String| name@).contains(
            path,
        ),
        crate::lsp::in_workspace(root)(file) <==> crate::paths::relative_to(
            file.path@,
            root,
        ) is Some,
{
    let paths = open.map_values(|document: &SourceFile| document.path@);
    let names = listed.map_values(|name: String| name@);
    if crate::lsp::is_open(open, path) {
        let i = choose|i: int| 0 <= i < open.len() && (#[trigger] open[i]).path@ == path;
        assert(paths[i] == path);
    }
    if paths.contains(path) {
        let i = choose|i: int| 0 <= i < paths.len() && paths[i] == path;
        assert(open[i].path@ == path);
    }
    if crate::lsp::is_listed(listed, path) {
        let i = choose|i: int| 0 <= i < listed.len() && (#[trigger] listed[i])@ == path;
        assert(names[i] == path);
    }
    if names.contains(path) {
        let i = choose|i: int| 0 <= i < names.len() && names[i] == path;
        assert(listed[i]@ == path);
    }
}

} // verus!
