//! What the answers of the library mean, said of token texts, bytes and lines.
use vstd::prelude::*;
use vstd::utf8::encode_utf8;

use crate::config::Config;
use crate::model::{CloneType, Occurrence, SourceFile, Token};
use crate::positions::{Position, Range};
use crate::server::{FindClonesForRegionParams, RequestError, ScanResponse};

verus! {

/// The bytes of the text of a token.
pub open spec fn spelling(file: &SourceFile, index: int) -> Seq<u8> {
    encode_utf8(file.text@).subrange(
        file.tokens@[index].start as int,
        file.tokens@[index].end as int,
    )
}

/// How many of the first `n` bytes are line feeds.
pub open spec fn feeds(bytes: Seq<u8>, n: int) -> int {
    bytes.take(n).filter(|byte: u8| byte == 10u8).len() as int
}

/// The number, from 1, of the line on which a token begins.
pub open spec fn line_begun(file: &SourceFile, index: int) -> int {
    1 + feeds(encode_utf8(file.text@), file.tokens@[index].start as int)
}

/// The number, from 1, of the line that holds the last byte of a token.
pub open spec fn line_ended(file: &SourceFile, index: int) -> int {
    1 + feeds(encode_utf8(file.text@), file.tokens@[index].end - 1)
}

/// Line feeds are counted as they stand in the text.
pub proof fn lines_are_told_by_line_feeds(bytes: Seq<u8>, n: int)
    requires
        0 <= n <= bytes.len(),
    ensures
        crate::model::line_feeds(bytes, n) == feeds(bytes, n),
        crate::model::line_of(bytes, n) == 1 + feeds(bytes, n),
    decreases n,
{
    let is_feed = |byte: u8| byte == 10u8;
    if n == 0 {
        crate::sort::lemma_filter_none(bytes.take(0), is_feed);
    } else {
        lines_are_told_by_line_feeds(bytes, n - 1);
        assert(bytes.take(n) =~= bytes.take(n - 1).push(bytes[n - 1]));
        crate::sort::lemma_filter_push(bytes.take(n - 1), bytes[n - 1], is_feed);
    }
}

/// A token begins on the line of its first byte and ends on the line of its last.
pub proof fn tokens_stand_on_their_lines(file: &SourceFile, index: int)
    requires
        file.wf(),
        0 <= index < file.tokens@.len(),
        file.tokens@[index].start < file.tokens@[index].end,
    ensures
        file.first_line(index) == line_begun(file, index),
        file.last_line(index) == line_ended(file, index),
        line_begun(file, index) <= line_ended(file, index),
{
    let bytes = file.bytes();
    let token = file.tokens@[index];
    assert(crate::encode::token_within(token, bytes.len()));
    lines_are_told_by_line_feeds(bytes, token.start as int);
    lines_are_told_by_line_feeds(bytes, token.end - 1);
    crate::model::lemma_line_feeds_monotonic(bytes, token.start as int, token.end - 1);
}

/// Tokens have the same hash exactly if they are of the same class and the hashes of their whole
/// texts agree but for the two top bits, where the class is told.
pub proof fn token_hashes_tell_whole_texts(
    text: Seq<u8>,
    tokens: Seq<Token>,
    i: int,
    other: Seq<u8>,
    others: Seq<Token>,
    j: int,
)
    requires
        0 <= i < tokens.len(),
        0 <= j < others.len(),
    ensures
        crate::encode::hashes_of(text, tokens).len() == tokens.len(),
        crate::encode::hashes_of(text, tokens)[i] == crate::encode::hashes_of(other, others)[j]
            <==> {
            &&& tokens[i].kind == 0 <==> others[j].kind == 0
            &&& tokens[i].kind == 1 <==> others[j].kind == 1
            &&& crate::encode::xxh3(text.subrange(tokens[i].start as int, tokens[i].end as int))
                << 2u64 == crate::encode::xxh3(
                other.subrange(others[j].start as int, others[j].end as int),
            ) << 2u64
        },
{
    let x = crate::encode::xxh3(text.subrange(tokens[i].start as int, tokens[i].end as int));
    let y = crate::encode::xxh3(other.subrange(others[j].start as int, others[j].end as int));
    let mask: u64 = 0xC000_0000_0000_0000;
    let a: u64 = 0;
    let b: u64 = 0x4000_0000_0000_0000;
    let c: u64 = 0x8000_0000_0000_0000;
    assert({
        &&& ((x & !mask) | a == (y & !mask) | a) <==> x << 2u64 == y << 2u64
        &&& ((x & !mask) | b == (y & !mask) | b) <==> x << 2u64 == y << 2u64
        &&& ((x & !mask) | c == (y & !mask) | c) <==> x << 2u64 == y << 2u64
        &&& (x & !mask) | a != (y & !mask) | b
        &&& (x & !mask) | a != (y & !mask) | c
        &&& (x & !mask) | b != (y & !mask) | a
        &&& (x & !mask) | b != (y & !mask) | c
        &&& (x & !mask) | c != (y & !mask) | a
        &&& (x & !mask) | c != (y & !mask) | b
    }) by (bit_vector)
        requires
            mask == 0xC000_0000_0000_0000u64,
            a == 0u64,
            b == 0x4000_0000_0000_0000u64,
            c == 0x8000_0000_0000_0000u64,
    ;
}

/// The files have the hashes of their tokens.
pub open spec fn are_hashed(files: Seq<&SourceFile>) -> bool {
    forall|f: int|
        0 <= f < files.len() ==> (#[trigger] files[f]).hashes@ == crate::encode::hashes_of(
            encode_utf8(files[f].text@),
            files[f].tokens@,
        )
}

/// No two texts of tokens of the files collide: where their hashes agree but for the two top bits,
/// they are the same.
pub open spec fn are_told_apart(files: Seq<&SourceFile>) -> bool {
    forall|f: int, i: int, g: int, j: int|
        #![trigger spelling(files[f], i), spelling(files[g], j)]
        0 <= f < files.len() && 0 <= g < files.len() && 0 <= i < files[f].tokens@.len() && 0 <= j
            < files[g].tokens@.len() && crate::encode::xxh3(spelling(files[f], i)) << 2u64
            == crate::encode::xxh3(spelling(files[g], j)) << 2u64 ==> spelling(files[f], i)
            == spelling(files[g], j)
}

/// The kind of the token at an offset into an occurrence.
pub open spec fn kind_in(files: Seq<&SourceFile>, a: Occurrence, t: int) -> u8 {
    files[a.file as int].tokens@[a.start + t].kind
}

/// The text of the token at an offset into an occurrence.
pub open spec fn text_in(files: Seq<&SourceFile>, a: Occurrence, t: int) -> Seq<u8> {
    spelling(files[a.file as int], a.start + t)
}

/// The token at an offset into an occurrence may be renamed: it is a name, or a literal where
/// literals are parameterized.
pub open spec fn may_differ(
    files: Seq<&SourceFile>,
    a: Occurrence,
    t: int,
    parameterize_literals: bool,
) -> bool {
    kind_in(files, a, t) == 0 || (kind_in(files, a, t) == 1 && parameterize_literals)
}

/// The two occurrences read alike: token by token they are names, literals or neither at the same
/// places. What may not be renamed has the same text in both, and what may is renamed one to one.
pub open spec fn read_alike(
    files: Seq<&SourceFile>,
    a: Occurrence,
    b: Occurrence,
    parameterize_literals: bool,
) -> bool {
    &&& a.end - a.start == b.end - b.start
    &&& forall|t: int|
        0 <= t < a.end - a.start ==> {
            &&& (#[trigger] kind_in(files, a, t) == 0 <==> kind_in(files, b, t) == 0)
            &&& (kind_in(files, a, t) == 1 <==> kind_in(files, b, t) == 1)
        }
    &&& forall|t: int|
        0 <= t < a.end - a.start && !may_differ(files, a, t, parameterize_literals)
            ==> #[trigger] text_in(files, a, t) == text_in(files, b, t)
    &&& forall|s: int, t: int|
        #![trigger kind_in(files, a, s), kind_in(files, a, t)]
        0 <= s < a.end - a.start && 0 <= t < a.end - a.start && kind_in(files, a, s) == kind_in(
            files,
            a,
            t,
        ) && may_differ(files, a, s, parameterize_literals) ==> (text_in(files, a, s) == text_in(
            files,
            a,
            t,
        ) <==> text_in(files, b, s) == text_in(files, b, t))
}

/// What the hashes of two tokens say of their texts.
proof fn lemma_hashes_tell(files: Seq<&SourceFile>, f: int, i: int, g: int, j: int)
    requires
        crate::matching::files_wf(files),
        are_hashed(files),
        are_told_apart(files),
        0 <= f < files.len(),
        0 <= g < files.len(),
        0 <= i < files[f].tokens@.len(),
        0 <= j < files[g].tokens@.len(),
    ensures
        ({
            let x = files[f].tokens@[i];
            let y = files[g].tokens@[j];
            &&& files[f].hashes@[i] == files[g].hashes@[j] <==> {
                &&& x.kind == 0 <==> y.kind == 0
                &&& x.kind == 1 <==> y.kind == 1
                &&& spelling(files[f], i) == spelling(files[g], j)
            }
            &&& files[f].hashes@[i] >> 62 == (if x.kind == 0 {
                1u64
            } else if x.kind == 1 {
                2u64
            } else {
                0u64
            })
        }),
{
    token_hashes_tell_whole_texts(
        encode_utf8(files[f].text@),
        files[f].tokens@,
        i,
        encode_utf8(files[g].text@),
        files[g].tokens@,
        j,
    );
    crate::encode::token_hash_keeps_kind(encode_utf8(files[f].text@), files[f].tokens@[i]);
    assert(files[f].hashes@[i] == crate::encode::token_hash(
        encode_utf8(files[f].text@),
        files[f].tokens@[i],
    ));
    assert(spelling(files[f], i) == spelling(files[f], i));
    assert(spelling(files[g], j) == spelling(files[g], j));
}

/// Clones read alike, in files whose hashes tell their token texts apart.
proof fn lemma_clones_read_alike(
    files: Seq<&SourceFile>,
    a: Occurrence,
    b: Occurrence,
    parameterize_literals: bool,
)
    requires
        crate::matching::files_wf(files),
        are_hashed(files),
        are_told_apart(files),
        crate::matching::occurs(files, a),
        crate::matching::occurs(files, b),
        crate::matching::is_clone_pair(files, a, b, parameterize_literals),
    ensures
        read_alike(files, a, b, parameterize_literals),
{
    let pl = parameterize_literals;
    let f = a.file as int;
    let g = b.file as int;
    assert(files[f].wf());
    assert(files[g].wf());
    let x = crate::matching::occurrence_span(files, a);
    let y = crate::matching::occurrence_span(files, b);
    assert(x.len() == a.end - a.start && y.len() == b.end - b.start);
    assert forall|t: int| 0 <= t < a.end - a.start implies {
        &&& (#[trigger] kind_in(files, a, t) == 0 <==> kind_in(files, b, t) == 0)
        &&& (kind_in(files, a, t) == 1 <==> kind_in(files, b, t) == 1)
    } by {
        assert(crate::encode::tokens_agree(x[t], y[t], pl));
        lemma_hashes_tell(files, f, a.start + t, g, b.start + t);
        lemma_hashes_tell(files, g, b.start + t, f, a.start + t);
    }
    assert forall|t: int| 0 <= t < a.end - a.start && !may_differ(
        files,
        a,
        t,
        pl,
    ) implies #[trigger] text_in(files, a, t) == text_in(files, b, t) by {
        assert(crate::encode::tokens_agree(x[t], y[t], pl));
        lemma_hashes_tell(files, f, a.start + t, g, b.start + t);
    }
    assert forall|s: int, t: int|
        #![trigger kind_in(files, a, s), kind_in(files, a, t)]
        0 <= s < a.end - a.start && 0 <= t < a.end - a.start && kind_in(files, a, s) == kind_in(
            files,
            a,
            t,
        ) && may_differ(files, a, s, pl) implies (text_in(files, a, s) == text_in(files, a, t)
        <==> text_in(files, b, s) == text_in(files, b, t)) by {
        lemma_hashes_tell(files, f, a.start + s, f, a.start + t);
        lemma_hashes_tell(files, f, a.start + t, f, a.start + s);
        lemma_hashes_tell(files, g, b.start + s, g, b.start + t);
        assert(kind_in(files, b, s) == kind_in(files, a, s) || kind_in(files, b, s) > 1);
        assert(kind_in(files, b, t) == kind_in(files, a, t) || kind_in(files, b, t) > 1);
        assert(crate::encode::is_parameter(x[s], pl));
        assert(crate::encode::is_parameter(x[t], pl));
        assert(x[s] == x[t] <==> y[s] == y[t]);
    }
}

/// Token by token the two occurrences have the same text.
pub open spec fn same_spelling(files: Seq<&SourceFile>, a: Occurrence, b: Occurrence) -> bool {
    &&& a.end - a.start == b.end - b.start
    &&& forall|t: int| 0 <= t < a.end - a.start ==> #[trigger] text_in(files, a, t) == text_in(files, b, t)
}

/// Every two of the occurrences have the same text token by token.
pub open spec fn all_spelled_alike(files: Seq<&SourceFile>, occurrences: Seq<Occurrence>) -> bool {
    forall|i: int, j: int|
        #![trigger occurrences[i], occurrences[j]]
        0 <= i < occurrences.len() && 0 <= j < occurrences.len() ==> same_spelling(
            files,
            occurrences[i],
            occurrences[j],
        )
}

/// Every two of the occurrences read alike.
pub open spec fn all_read_alike(
    files: Seq<&SourceFile>,
    occurrences: Seq<Occurrence>,
    parameterize_literals: bool,
) -> bool {
    forall|i: int, j: int|
        #![trigger occurrences[i], occurrences[j]]
        0 <= i < occurrences.len() && 0 <= j < occurrences.len() ==> read_alike(
            files,
            occurrences[i],
            occurrences[j],
            parameterize_literals,
        )
}

/// Clones are of type 1 exactly if every two of them have the same text token by token.
pub proof fn clone_types_tell_texts(files: Seq<&SourceFile>, occurrences: Seq<Occurrence>)
    requires
        forall|i: int, j: int|
            0 <= i < occurrences.len() && 0 <= j < occurrences.len() ==> (
            #[trigger] occurrences[i]).end - occurrences[i].start == (
            #[trigger] occurrences[j]).end - occurrences[j].start,
    ensures
        crate::cluster::clone_type_of(files, occurrences) == CloneType::Type1
            <==> all_spelled_alike(files, occurrences),
{
    if crate::cluster::clone_type_of(files, occurrences) == CloneType::Type1 {
        assert forall|i: int, j: int|
            #![trigger occurrences[i], occurrences[j]]
            0 <= i < occurrences.len() && 0 <= j < occurrences.len() implies same_spelling(
            files,
            occurrences[i],
            occurrences[j],
        ) by {
            let first = occurrences[0];
            let a = occurrences[i];
            let b = occurrences[j];
            if i >= 1 {
                assert(crate::cluster::same_texts(files, first, a));
            }
            if j >= 1 {
                assert(crate::cluster::same_texts(files, first, b));
            }
            assert forall|t: int| 0 <= t < a.end - a.start implies #[trigger] text_in(files, a, t)
                == text_in(files, b, t) by {
                assert(crate::cluster::token_text(files[first.file as int], first.start + t)
                    == text_in(files, a, t));
                assert(crate::cluster::token_text(files[first.file as int], first.start + t)
                    == text_in(files, b, t));
            }
        }
    }
    if all_spelled_alike(files, occurrences) {
        assert forall|i: int| 1 <= i < occurrences.len() implies crate::cluster::same_texts(
            files,
            occurrences[0],
            #[trigger] occurrences[i],
        ) by {
            let a = occurrences[0];
            let b = occurrences[i];
            assert(same_spelling(files, a, b));
            assert forall|t: int| 0 <= t < a.end - a.start implies #[trigger] crate::cluster::token_text(
                files[a.file as int],
                a.start + t,
            ) == crate::cluster::token_text(files[b.file as int], b.start + t) by {
                assert(text_in(files, a, t) == text_in(files, b, t));
            }
        }
    }
}

/// Clones of each other read alike, in files whose hashes tell their token texts apart.
pub proof fn clones_read_alike(
    files: Seq<&SourceFile>,
    occurrences: Seq<Occurrence>,
    parameterize_literals: bool,
)
    requires
        crate::matching::files_wf(files),
        are_hashed(files),
        are_told_apart(files),
        crate::cluster::is_clone_class(files, occurrences, parameterize_literals),
    ensures
        all_read_alike(files, occurrences, parameterize_literals),
{
    assert forall|i: int, j: int|
        #![trigger occurrences[i], occurrences[j]]
        0 <= i < occurrences.len() && 0 <= j < occurrences.len() implies read_alike(
        files,
        occurrences[i],
        occurrences[j],
        parameterize_literals,
    ) by {
        assert(crate::matching::occurs(files, occurrences[i]));
        assert(crate::matching::occurs(files, occurrences[j]));
        lemma_clones_read_alike(files, occurrences[i], occurrences[j], parameterize_literals);
    }
}

/// The texts are the same up to a renaming exactly if the hashes say so: clones are those that read
/// alike, no fewer and no more.
pub proof fn clones_are_what_reads_alike(
    files: Seq<&SourceFile>,
    a: Occurrence,
    b: Occurrence,
    parameterize_literals: bool,
)
    requires
        crate::matching::files_wf(files),
        are_hashed(files),
        are_told_apart(files),
        crate::matching::occurs(files, a),
        crate::matching::occurs(files, b),
    ensures
        crate::matching::is_clone_pair(files, a, b, parameterize_literals) <==> read_alike(
            files,
            a,
            b,
            parameterize_literals,
        ),
{
    let pl = parameterize_literals;
    if crate::matching::is_clone_pair(files, a, b, pl) {
        lemma_clones_read_alike(files, a, b, pl);
    }
    if read_alike(files, a, b, pl) {
        let f = a.file as int;
        let g = b.file as int;
        assert(files[f].wf());
        assert(files[g].wf());
        let x = crate::matching::occurrence_span(files, a);
        let y = crate::matching::occurrence_span(files, b);
        assert forall|t: int| 0 <= t < x.len() implies crate::encode::tokens_agree(
            #[trigger] x[t],
            y[t],
            pl,
        ) by {
            lemma_hashes_tell(files, f, a.start + t, g, b.start + t);
            lemma_hashes_tell(files, g, b.start + t, f, a.start + t);
            assert(kind_in(files, a, t) == 0 <==> kind_in(files, b, t) == 0);
            if !may_differ(files, a, t, pl) {
                assert(text_in(files, a, t) == text_in(files, b, t));
            }
        }
        assert forall|s: int, t: int|
            0 <= s < x.len() && 0 <= t < x.len() && crate::encode::is_parameter(
                #[trigger] x[s],
                pl,
            ) && crate::encode::is_parameter(#[trigger] x[t], pl) implies (x[s] == x[t] <==> y[s]
            == y[t]) by {
            lemma_hashes_tell(files, f, a.start + s, f, a.start + t);
            lemma_hashes_tell(files, f, a.start + t, f, a.start + s);
            lemma_hashes_tell(files, g, b.start + s, g, b.start + t);
            assert(kind_in(files, a, s) == 0 <==> kind_in(files, b, s) == 0);
            assert(kind_in(files, a, t) == 0 <==> kind_in(files, b, t) == 0);
        }
    }
}

/// The value of a row of decimal digits.
pub open spec fn value_of(digits: Seq<char>) -> int
    decreases digits.len(),
{
    if digits.len() == 0 {
        0
    } else {
        10 * value_of(digits.drop_last()) + (digits.last() as u32 - '0' as u32)
    }
}

/// A number in decimal is a row of digits that does not start with a zero it can do without, and
/// reads back as the number.
pub proof fn numbers_read_back(value: nat)
    ensures
        value_of(crate::text::decimal(value)) == value,
        crate::text::decimal(value).len() > 0,
        value >= 10 <==> crate::text::decimal(value).len() > 1,
        forall|i: int|
            0 <= i < crate::text::decimal(value).len() ==> '0' <= #[trigger] crate::text::decimal(
                value,
            )[i] <= '9',
        crate::text::decimal(value).len() > 1 ==> crate::text::decimal(value)[0] != '0',
    decreases value,
{
    let digits = crate::text::decimal(value);
    if value >= 10 {
        numbers_read_back(value / 10);
        assert(digits.drop_last() =~= crate::text::decimal(value / 10));
        assert(digits[0] == crate::text::decimal(value / 10)[0]);
        if value / 10 < 10 {
            assert(digits[0] == crate::text::digit((value / 10) as int));
        }
    } else {
        assert(digits.drop_last() =~= Seq::empty());
        assert(value_of(digits.drop_last()) == 0);
    }
}

/// The position is in the file, not before the range and not behind it.
pub open spec fn stands_at(place: (Seq<char>, Range), path: Seq<char>, position: Position) -> bool {
    &&& place.0 == path
    &&& place.1.start.line < position.line || (place.1.start.line == position.line
        && place.1.start.character <= position.character)
    &&& position.line < place.1.end.line || (position.line == place.1.end.line
        && position.character <= place.1.end.character)
}

/// The group has an occurrence at the position.
pub open spec fn has_one_at(
    group: (Seq<(Seq<char>, Range)>, int, CloneType),
    path: Seq<char>,
    position: Position,
) -> bool {
    exists|i: int| 0 <= i < group.0.len() && stands_at(#[trigger] group.0[i], path, position)
}

proof fn lemma_at_one(
    group: (Seq<(Seq<char>, Range)>, int, CloneType),
    path: Seq<char>,
    position: Position,
)
    ensures
        crate::navigation::is_at_one(group.0, path, position) == has_one_at(group, path, position),
{
    if crate::navigation::is_at_one(group.0, path, position) {
        let i = choose|i: int|
            0 <= i < group.0.len() && crate::navigation::is_at(
                #[trigger] group.0[i],
                path,
                position,
            );
        assert(stands_at(group.0[i], path, position));
    }
    if has_one_at(group, path, position) {
        let i = choose|i: int|
            0 <= i < group.0.len() && stands_at(#[trigger] group.0[i], path, position);
        assert(crate::navigation::is_at(group.0[i], path, position));
    }
}

/// What is shown of a group on its own: its size, the number of its occurrences and its type, then
/// a line for each of them, which tells the file and the line, and whether it is the file that is
/// asked about.
pub open spec fn shown_alone(
    group: (Seq<(Seq<char>, Range)>, int, CloneType),
    path: Seq<char>,
    n: int,
) -> Seq<char>
    decreases n,
{
    if n <= 0 {
        "**Duplicated code** — "@ + crate::text::decimal(group.1 as nat) + " tokens, "@
            + crate::text::decimal(group.0.len()) + " occurrences ("@ + (match group.2 {
            CloneType::Type1 => "type-1"@,
            CloneType::Type2 => "type-2"@,
        }) + ")\n\n"@
    } else {
        let place = group.0[n - 1];
        shown_alone(group, path, n - 1) + (if place.0 == path {
            "- "@ + "(here) "@
        } else {
            "- "@ + ""@
        }) + place.0 + ":"@ + crate::text::decimal((place.1.start.line + 1) as nat) + "\n"@
    }
}

proof fn lemma_shown_alone(
    group: (Seq<(Seq<char>, Range)>, int, CloneType),
    path: Seq<char>,
    n: int,
)
    requires
        0 <= n <= group.0.len(),
    ensures
        crate::navigation::hover_head(group) + crate::navigation::hover_lines(group.0, n, path)
            == shown_alone(group, path, n),
    decreases n,
{
    if n > 0 {
        lemma_shown_alone(group, path, n - 1);
        assert(crate::navigation::hover_head(group) + crate::navigation::hover_lines(
            group.0,
            n,
            path,
        ) =~= shown_alone(group, path, n));
    } else {
        assert(crate::navigation::hover_head(group) + crate::navigation::hover_lines(
            group.0,
            0,
            path,
        ) =~= shown_alone(group, path, 0));
    }
}

/// Something is shown at a position exactly if some group has an occurrence there, and then it is
/// the first such group, whatever groups come before and behind it.
pub proof fn hover_shows_the_first_group_there(
    groups: Seq<(Seq<(Seq<char>, Range)>, int, CloneType)>,
    from: int,
    path: Seq<char>,
    position: Position,
)
    requires
        0 <= from <= groups.len(),
    ensures
        crate::navigation::hover_text(groups, from, path, position) is Some <==> exists|g: int|
            from <= g < groups.len() && has_one_at(#[trigger] groups[g], path, position),
        forall|g: int|
            from <= g < groups.len() && has_one_at(#[trigger] groups[g], path, position) && (forall|
                h: int,
            |
                from <= h < g ==> !has_one_at(#[trigger] groups[h], path, position))
                ==> crate::navigation::hover_text(groups, from, path, position) == Some(
                shown_alone(groups[g], path, groups[g].0.len() as int),
            ),
    decreases groups.len() - from,
{
    if from < groups.len() {
        lemma_at_one(groups[from], path, position);
        lemma_shown_alone(groups[from], path, groups[from].0.len() as int);
        hover_shows_the_first_group_there(groups, from + 1, path, position);
        if has_one_at(groups[from], path, position) {
            assert forall|g: int|
                from <= g < groups.len() && has_one_at(#[trigger] groups[g], path, position) && (
                forall|h: int|
                    from <= h < g ==> !has_one_at(
                        #[trigger] groups[h],
                        path,
                        position,
                    )) implies g == from by {
                if g > from {
                    assert(!has_one_at(groups[from], path, position));
                }
            }
        }
    }
}

/// Something is shown at a position exactly if references are found there, and these are the
/// occurrences of all groups with one there, each once.
pub proof fn hover_answers_where_references_do(
    groups: Seq<(Seq<(Seq<char>, Range)>, int, CloneType)>,
    path: Seq<char>,
    position: Position,
)
    ensures
        ({
            let n = groups.len() as int;
            let found = crate::navigation::places_found(groups, n, path, position, false);
            let others = crate::navigation::places_found(groups, n, path, position, true);
            &&& crate::navigation::hover_text(groups, 0, path, position) is Some <==> found.len() > 0
            &&& found.no_duplicates() && others.no_duplicates()
            &&& forall|place: (Seq<char>, Range)| #[trigger]
                found.contains(place) <==> exists|g: int|
                    0 <= g < n && has_one_at(#[trigger] groups[g], path, position)
                        && groups[g].0.contains(place)
            &&& forall|place: (Seq<char>, Range)| #[trigger]
                others.contains(place) <==> found.contains(place) && !stands_at(
                    place,
                    path,
                    position,
                )
        }),
{
    let n = groups.len() as int;
    let found = crate::navigation::places_found(groups, n, path, position, false);
    let others = crate::navigation::places_found(groups, n, path, position, true);
    hover_shows_the_first_group_there(groups, 0, path, position);
    crate::navigation::definitions_are_the_other_references(groups, n, path, position);
    crate::navigation::found_places_differ(groups, n, path, position, false);
    crate::navigation::found_places_differ(groups, n, path, position, true);
    assert forall|g: int| 0 <= g < n implies crate::navigation::is_at_one(
        (#[trigger] groups[g]).0,
        path,
        position,
    ) == has_one_at(groups[g], path, position) by {
        lemma_at_one(groups[g], path, position);
    }
    assert forall|place: (Seq<char>, Range)| #[trigger]
        found.contains(place) <==> exists|g: int|
            0 <= g < n && has_one_at(#[trigger] groups[g], path, position)
                && groups[g].0.contains(place) by {
        crate::navigation::found_places_are_occurrences(groups, n, path, position, false, place);
        if found.contains(place) {
            let g = choose|g: int|
                0 <= g < n && crate::navigation::is_at_one((#[trigger] groups[g]).0, path, position)
                    && groups[g].0.contains(place);
            assert(has_one_at(groups[g], path, position));
        }
        if exists|g: int|
            0 <= g < n && has_one_at(#[trigger] groups[g], path, position)
                && groups[g].0.contains(place) {
            let g = choose|g: int|
                0 <= g < n && has_one_at(#[trigger] groups[g], path, position)
                    && groups[g].0.contains(place);
            assert(crate::navigation::is_at_one(groups[g].0, path, position));
        }
    }
    assert forall|place: (Seq<char>, Range)| #[trigger]
        others.contains(place) <==> found.contains(place) && !stands_at(place, path, position) by {
        crate::navigation::found_places_are_occurrences(groups, n, path, position, true, place);
        crate::navigation::found_places_are_occurrences(groups, n, path, position, false, place);
        assert(crate::navigation::is_at(place, path, position) == stands_at(place, path, position));
    }
}

/// The line of a report for an occurrence: the path, the line on which its first token begins and
/// the line on which its last token ends.
pub open spec fn printed_line(files: Seq<&SourceFile>, occurrence: Occurrence) -> Seq<char> {
    let file = files[occurrence.file as int];
    "  "@ + file.path@ + ":"@ + crate::text::decimal(
        line_begun(file, occurrence.start as int) as nat,
    ) + ":"@ + crate::text::decimal(line_ended(file, occurrence.end - 1) as nat) + "\n"@
}

/// The first line of a report for a group.
pub open spec fn printed_head(group: (Seq<Occurrence>, int, CloneType), number: int) -> Seq<char> {
    "#"@ + crate::text::decimal(number as nat) + ": "@ + crate::text::decimal(group.1 as nat)
        + " tokens, "@ + (match group.2 {
        CloneType::Type1 => "Type1"@,
        CloneType::Type2 => "Type2"@,
    }) + ", "@ + crate::text::decimal(group.0.len()) + " occurrence(s)\n"@
}

/// Every token of the files has a text, and the tokens stand in order.
pub open spec fn are_ready(files: Seq<&SourceFile>) -> bool {
    forall|f: int| 0 <= f < files.len() ==> crate::index::file_ready(*#[trigger] files[f])
}

/// The lines of an occurrence are told by the line feeds of its file: where it begins, where it
/// ends, and how many there are.
pub proof fn occurrences_stand_on_their_lines(file: &SourceFile, occurrence: Occurrence)
    requires
        crate::index::file_ready(*file),
        file.holds(occurrence),
    ensures
        file.first_line(occurrence.start as int) == line_begun(file, occurrence.start as int),
        file.last_line(occurrence.end - 1) == line_ended(file, occurrence.end - 1),
        1 <= line_begun(file, occurrence.start as int) <= line_ended(file, occurrence.end - 1),
        file.lines_of(occurrence) == line_ended(file, occurrence.end - 1) - line_begun(
            file,
            occurrence.start as int,
        ) + 1,
{
    let tokens = file.tokens@;
    let first = occurrence.start as int;
    let last = occurrence.end - 1;
    assert(tokens[first].start < tokens[first].end);
    assert(tokens[last].start < tokens[last].end <= file.bytes().len());
    tokens_stand_on_their_lines(file, first);
    tokens_stand_on_their_lines(file, last);
    if first < last {
        assert(tokens[first].end <= tokens[last].start);
    }
    crate::model::lemma_line_feeds_monotonic(
        file.bytes(),
        tokens[first].start as int,
        tokens[last].end - 1,
    );
    lines_are_told_by_line_feeds(file.bytes(), tokens[first].start as int);
    lines_are_told_by_line_feeds(file.bytes(), tokens[last].end - 1);
}

/// A text holds a part.
pub open spec fn holds_part(text: Seq<char>, part: Seq<char>) -> bool {
    exists|at: int|
        0 <= at <= text.len() - part.len() && #[trigger] text.subrange(at, at + part.len()) == part
}

proof fn lemma_part_within(head: Seq<char>, text: Seq<char>, more: Seq<char>, part: Seq<char>)
    requires
        holds_part(text, part),
    ensures
        holds_part(head + text + more, part),
{
    let at = choose|at: int|
        0 <= at <= text.len() - part.len() && #[trigger] text.subrange(at, at + part.len()) == part;
    let whole = head + text + more;
    let there = head.len() + at;
    assert(whole.subrange(there, there + part.len()) =~= text.subrange(at, at + part.len()));
}

proof fn lemma_part_stays(text: Seq<char>, part: Seq<char>, more: Seq<char>)
    requires
        holds_part(text, part),
    ensures
        holds_part(text + more, part),
{
    lemma_part_within(Seq::empty(), text, more, part);
    assert(Seq::<char>::empty() + text + more =~= text + more);
}

proof fn lemma_part_behind(text: Seq<char>, part: Seq<char>, head: Seq<char>)
    requires
        holds_part(text, part),
    ensures
        holds_part(head + text, part),
{
    lemma_part_within(head, text, Seq::empty(), part);
    assert(head + text + Seq::<char>::empty() =~= head + text);
}

proof fn lemma_whole_part(text: Seq<char>)
    ensures
        holds_part(text, text),
{
    assert(text.subrange(0, 0 + text.len() as int) =~= text);
}

proof fn lemma_occurrence_printed(
    files: Seq<&SourceFile>,
    occurrences: Seq<Occurrence>,
    n: int,
    k: int,
)
    requires
        are_ready(files),
        crate::cluster::all_occur(files, occurrences),
        0 <= k < n <= occurrences.len(),
    ensures
        holds_part(
            crate::cli::occurrence_lines(files, occurrences, n),
            printed_line(files, occurrences[k]),
        ),
    decreases n,
{
    let before = crate::cli::occurrence_lines(files, occurrences, n - 1);
    let line = crate::cli::occurrence_line(files, occurrences[n - 1]);
    if k == n - 1 {
        assert(crate::matching::occurs(files, occurrences[k]));
        occurrences_stand_on_their_lines(files[occurrences[k].file as int], occurrences[k]);
        lemma_whole_part(line);
        lemma_part_behind(line, line, before);
    } else {
        lemma_occurrence_printed(files, occurrences, n - 1, k);
        lemma_part_stays(before, printed_line(files, occurrences[k]), line);
    }
}

proof fn lemma_group_printed(
    files: Seq<&SourceFile>,
    groups: Seq<(Seq<Occurrence>, int, CloneType)>,
    n: int,
    g: int,
    part: Seq<char>,
)
    requires
        0 <= g < n <= groups.len(),
        holds_part(crate::cli::group_text(files, groups[g], g + 1), part),
    ensures
        holds_part(crate::cli::group_texts(files, groups, n), part),
    decreases n,
{
    let before = crate::cli::group_texts(files, groups, n - 1);
    let text = crate::cli::group_text(files, groups[n - 1], n);
    if g == n - 1 {
        lemma_part_behind(text, part, before);
    } else {
        lemma_group_printed(files, groups, n - 1, g, part);
        lemma_part_stays(before, part, text);
    }
}

/// The printed report begins with how many groups and files there are. It holds a line for every
/// group and one for every occurrence of it. The line of an occurrence tells the lines on which its
/// first token begins and its last token ends: the same lines as in the answer to a request, and as
/// many from the one to the other as the occurrence has.
pub proof fn reports_tell_the_lines_of_clones(
    files: Seq<&SourceFile>,
    groups: Seq<(Seq<Occurrence>, int, CloneType)>,
    g: int,
    k: int,
)
    requires
        are_ready(files),
        crate::server::groups_occur(files, groups),
        0 <= g < groups.len(),
        0 <= k < groups[g].0.len(),
    ensures
        ({
            let report = crate::cli::report_of(files, groups);
            let occurrence = groups[g].0[k];
            let file = files[occurrence.file as int];
            let dto = crate::server::group_dto(files, groups[g]);
            let first = line_begun(file, occurrence.start as int);
            let last = line_ended(file, occurrence.end - 1);
            &&& exists|rest: Seq<char>|
                report == crate::text::decimal(groups.len()) + " clone group(s) across "@
                    + crate::text::decimal(files.len()) + " file(s):\n"@ + rest
            &&& holds_part(report, printed_head(groups[g], g + 1))
            &&& holds_part(report, printed_line(files, occurrence))
            &&& dto.0.len() == groups[g].0.len() && dto.0[k] == (file.path@, first, last)
            &&& dto.1 == groups[g].1 && dto.2 == groups[g].2
            &&& last - first + 1 == file.lines_of(occurrence)
        }),
{
    let report = crate::cli::report_of(files, groups);
    let occurrence = groups[g].0[k];
    let n = groups[g].0.len() as int;
    assert(crate::cluster::all_occur(files, groups[g].0));
    assert(crate::matching::occurs(files, occurrence));
    occurrences_stand_on_their_lines(files[occurrence.file as int], occurrence);
    let rest = crate::cli::group_texts(files, groups, groups.len() as int);
    let start = crate::text::decimal(groups.len()) + " clone group(s) across "@
        + crate::text::decimal(files.len()) + " file(s):\n"@;
    assert(report == start + rest);
    let text = crate::cli::group_text(files, groups[g], g + 1);
    let lines = crate::cli::occurrence_lines(files, groups[g].0, n);
    let head = printed_head(groups[g], g + 1);
    assert(text =~= head + lines);
    lemma_whole_part(head);
    lemma_part_stays(head, head, lines);
    lemma_occurrence_printed(files, groups[g].0, n, k);
    lemma_part_behind(lines, printed_line(files, occurrence), head);
    lemma_group_printed(files, groups, groups.len() as int, g, head);
    lemma_group_printed(
        files,
        groups,
        groups.len() as int,
        g,
        printed_line(files, occurrence),
    );
    lemma_part_behind(rest, head, start);
    lemma_part_behind(rest, printed_line(files, occurrence), start);
}

/// The settings with which a request about a region is answered where it gives no number of lines:
/// those of the project but for the number of lines, the limit and the types.
pub open spec fn region_settings(
    config: Config,
    params: FindClonesForRegionParams,
    min_lines: usize,
) -> Config {
    Config {
        min_lines,
        max_groups: if params.max_groups is Some {
            params.max_groups
        } else {
            config.max_groups
        },
        types: params.types,
        ..config
    }
}

/// Where a request about a region gives no number of lines, the answer asks for no more lines than
/// the project does and for no more than the region has, and for one of the two. The region is made
/// of the tokens that begin on its lines, and its lines go from where the first of them begins to
/// where the last ends. The groups of the answer are those that detection from the windows of the
/// region gives with these settings and that overlap the region.
pub proof fn regions_ask_for_no_more_lines_than_they_have(
    files: Seq<&SourceFile>,
    file: int,
    config: Config,
    params: FindClonesForRegionParams,
    result: Result<ScanResponse, RequestError>,
    start: int,
    end: int,
)
    requires
        are_ready(files),
        0 <= file < files.len(),
        1 <= params.start_line,
        params.min_lines is None,
        config.min_lines > 0,
        crate::server::is_region_answer(files, file, config, params, result),
        0 <= start < end <= files[file].tokens@.len(),
        forall|i: int|
            0 <= i < files[file].tokens@.len() ==> (start <= i < end <==> params.start_line
                <= #[trigger] line_begun(files[file], i) <= params.end_line),
    ensures
        exists|min_lines: usize|
            #![trigger region_settings(config, params, min_lines)]
            {
                let lines = line_ended(files[file], end - 1) - line_begun(files[file], start) + 1;
                let settings = region_settings(config, params, min_lines);
                &&& min_lines <= config.min_lines && min_lines <= lines
                &&& min_lines == config.min_lines || min_lines == lines
                &&& result matches Ok(response) && crate::server::is_response(
                    response,
                    files,
                    crate::detect::detected(
                        files,
                        settings,
                        Some(
                            crate::detect::span_signatures(
                                *files[file],
                                start,
                                end,
                                config.seed_window as int,
                                config.parameterize_literals,
                            ),
                        ),
                    ).filter(
                        |group: (Seq<Occurrence>, int, CloneType)|
                            exists|i: int|
                                0 <= i < group.0.len() && (#[trigger] group.0[i]).file == file
                                    && group.0[i].start < end && start < group.0[i].end,
                    ),
                )
            },
{
    let target = files[file];
    let (first, last) = crate::regions::lines_range(*target, params.start_line, params.end_line);
    assert forall|i: int| 0 <= i < target.tokens@.len() implies (first <= i < last
        <==> params.start_line <= #[trigger] line_begun(target, i) <= params.end_line) by {
        crate::regions::lines_range_holds_their_tokens(
            *target,
            params.start_line,
            params.end_line,
            i,
        );
        assert(target.tokens@[i].start < target.tokens@[i].end);
        tokens_stand_on_their_lines(target, i);
        assert(line_begun(target, i) == target.first_line(i));
    }
    lemma_range_bounds(target, params.start_line, params.end_line);
    assert(params.start_line <= line_begun(target, start) <= params.end_line);
    assert(params.start_line <= line_begun(target, end - 1) <= params.end_line);
    if first < start {
        assert(params.start_line <= line_begun(target, first) <= params.end_line);
    }
    if end < last {
        assert(params.start_line <= line_begun(target, end) <= params.end_line);
    }
    assert(first == start && last == end);
    let region = Occurrence { file: 0, start: start as u32, end: end as u32 };
    occurrences_stand_on_their_lines(target, region);
    let lines = target.lines_of(region);
    let min_lines: usize = if config.min_lines <= lines {
        config.min_lines
    } else {
        lines as usize
    };
    let settings = region_settings(config, params, min_lines);
    assert(settings == crate::server::request_config(
        config,
        Some(min_lines),
        None,
        params.max_groups,
        None,
        params.types,
    ));
    let pred = |group: (Seq<Occurrence>, int, CloneType)|
        exists|i: int|
            0 <= i < group.0.len() && (#[trigger] group.0[i]).file == file && group.0[i].start < end
                && start < group.0[i].end;
    assert(pred =~= crate::server::touches(file, start, end));
}

proof fn lemma_range_bounds(file: &SourceFile, start_line: u32, end_line: u32)
    requires
        crate::index::file_ready(*file),
    ensures
        0 <= crate::regions::lines_range(*file, start_line, end_line).0 <= file.tokens@.len(),
        0 <= crate::regions::lines_range(*file, start_line, end_line).1 <= file.tokens@.len(),
{
    let tokens = file.tokens@;
    lemma_starting_bound(tokens, file.start_of_line(start_line as int), tokens.len() as int);
    lemma_starting_bound(tokens, file.start_of_line(end_line + 1), tokens.len() as int);
}

proof fn lemma_starting_bound(tokens: Seq<Token>, offset: int, n: int)
    requires
        0 <= n,
    ensures
        crate::regions::starting_before(tokens, offset, n) <= n,
    decreases n,
{
    if n > 0 {
        lemma_starting_bound(tokens, offset, n - 1);
    }
}

/// The words and signs that tell logic from declarations.
pub open spec fn logic_words() -> Seq<Seq<char>> {
    seq![
        "="@, "=="@, "!="@, "=>"@, "+"@, "-"@, "/"@, "%"@, "&&"@, "||"@, "!"@, "."@, "?"@, "if"@,
        "else"@, "for"@, "while"@, "loop"@, "match"@, "return"@, "let"@, "fn"@, "impl"@, "unsafe"@,
        "await"@, "break"@, "continue"@,
    ]
}

/// Some token of the occurrence is one of the words that tell logic.
pub open spec fn tells_logic(files: Seq<&SourceFile>, occurrence: Occurrence) -> bool {
    exists|t: int, w: int|
        #![trigger spelling(files[occurrence.file as int], t), logic_words()[w]]
        occurrence.start <= t < occurrence.end && 0 <= w < 27 && spelling(
            files[occurrence.file as int],
            t,
        ) == encode_utf8(logic_words()[w])
}

/// Clones are mere boilerplate exactly if none of their tokens is a word that tells logic.
pub proof fn boilerplate_tells_no_logic(files: Seq<&SourceFile>, occurrences: Seq<Occurrence>)
    ensures
        crate::cluster::all_boilerplate(files, occurrences) <==> forall|i: int|
            0 <= i < occurrences.len() ==> !tells_logic(files, #[trigger] occurrences[i]),
{
    assert forall|occurrence: Occurrence| #[trigger]
        crate::cluster::has_logic(files, occurrence) == tells_logic(files, occurrence) by {
        let file = files[occurrence.file as int];
        if crate::cluster::has_logic(files, occurrence) {
            let t = choose|t: int|
                occurrence.start <= t < occurrence.end && crate::cluster::is_logic_marker(
                    #[trigger] crate::cluster::token_text(file, t),
                );
            let text = spelling(file, t);
            let words = logic_words();
            assert(text == crate::cluster::token_text(file, t));
            let w: int = if text == encode_utf8(words[0]) { 0 }
                else if text == encode_utf8(words[1]) { 1 }
                else if text == encode_utf8(words[2]) { 2 }
                else if text == encode_utf8(words[3]) { 3 }
                else if text == encode_utf8(words[4]) { 4 }
                else if text == encode_utf8(words[5]) { 5 }
                else if text == encode_utf8(words[6]) { 6 }
                else if text == encode_utf8(words[7]) { 7 }
                else if text == encode_utf8(words[8]) { 8 }
                else if text == encode_utf8(words[9]) { 9 }
                else if text == encode_utf8(words[10]) { 10 }
                else if text == encode_utf8(words[11]) { 11 }
                else if text == encode_utf8(words[12]) { 12 }
                else if text == encode_utf8(words[13]) { 13 }
                else if text == encode_utf8(words[14]) { 14 }
                else if text == encode_utf8(words[15]) { 15 }
                else if text == encode_utf8(words[16]) { 16 }
                else if text == encode_utf8(words[17]) { 17 }
                else if text == encode_utf8(words[18]) { 18 }
                else if text == encode_utf8(words[19]) { 19 }
                else if text == encode_utf8(words[20]) { 20 }
                else if text == encode_utf8(words[21]) { 21 }
                else if text == encode_utf8(words[22]) { 22 }
                else if text == encode_utf8(words[23]) { 23 }
                else if text == encode_utf8(words[24]) { 24 }
                else if text == encode_utf8(words[25]) { 25 }
                else { 26 };
            assert(text == encode_utf8(logic_words()[w]));
        }
        if tells_logic(files, occurrence) {
            let (t, w) = choose|t: int, w: int|
                #![trigger spelling(file, t), logic_words()[w]]
                occurrence.start <= t < occurrence.end && 0 <= w < 27 && spelling(file, t)
                    == encode_utf8(logic_words()[w]);
            assert(crate::cluster::token_text(file, t) == spelling(file, t));
            assert(crate::cluster::is_logic_marker(crate::cluster::token_text(file, t)));
        }
    }
    if crate::cluster::all_boilerplate(files, occurrences) {
        assert forall|i: int| 0 <= i < occurrences.len() implies !tells_logic(
            files,
            #[trigger] occurrences[i],
        ) by {
            assert(!crate::cluster::has_logic(files, occurrences[i]));
        }
    }
}

/// What a group has to be to be reported: it has as many occurrences as asked for and each touches
/// as many lines, it tells logic somewhere where boilerplate is filtered, and where types are asked
/// for its own is one of them: type 1 if every two occurrences have the same text token by token.
pub open spec fn qualifies(
    files: Seq<&SourceFile>,
    occurrences: Seq<Occurrence>,
    config: Config,
) -> bool {
    &&& occurrences.len() >= config.min_occurrences
    &&& forall|i: int|
        0 <= i < occurrences.len() ==> {
            let file = files[(#[trigger] occurrences[i]).file as int];
            line_ended(file, occurrences[i].end - 1) - line_begun(
                file,
                occurrences[i].start as int,
            ) + 1 >= config.min_lines
        }
    &&& config.filter_boilerplate ==> exists|i: int|
        0 <= i < occurrences.len() && tells_logic(files, #[trigger] occurrences[i])
    &&& config.types matches Some(list) ==> list@.contains(
        if all_spelled_alike(files, occurrences) {
            CloneType::Type1
        } else {
            CloneType::Type2
        },
    )
}

proof fn lemma_least_attained(numbers: Seq<int>)
    requires
        numbers.len() > 0,
    ensures
        exists|i: int| 0 <= i < numbers.len() && #[trigger] numbers[i] == crate::cluster::least(
            numbers,
        ),
        forall|i: int|
            0 <= i < numbers.len() ==> crate::cluster::least(numbers) <= #[trigger] numbers[i],
    decreases numbers.len(),
{
    if numbers.len() > 1 {
        let shorter = numbers.drop_last();
        lemma_least_attained(shorter);
        let i = choose|i: int|
            0 <= i < shorter.len() && #[trigger] shorter[i] == crate::cluster::least(shorter);
        assert(numbers[i] == shorter[i]);
        assert(numbers[numbers.len() - 1] == numbers.last());
        assert forall|i: int| 0 <= i < numbers.len() implies crate::cluster::least(numbers)
            <= #[trigger] numbers[i] by {
            if i < numbers.len() - 1 {
                assert(shorter[i] == numbers[i]);
            }
        }
    } else {
        assert(numbers[0] == crate::cluster::least(numbers));
    }
}

/// A group of clones is reported exactly if it qualifies.
pub proof fn what_qualifies_is_reported(
    files: Seq<&SourceFile>,
    group: Seq<Occurrence>,
    config: Config,
)
    requires
        are_ready(files),
        crate::cluster::is_clone_class(files, group, config.parameterize_literals),
    ensures
        crate::cluster::is_reported(files, group, config) <==> qualifies(files, group, config),
        crate::cluster::described(files, group) == (
            group,
            group[0].end - group[0].start,
            if all_spelled_alike(files, group) {
                CloneType::Type1
            } else {
                CloneType::Type2
            },
        ),
{
    assert(crate::matching::files_wf(files)) by {
        assert forall|f: int| 0 <= f < files.len() implies (#[trigger] files[f]).wf() by {
            assert(crate::index::file_ready(*files[f]));
        }
    }
    crate::cluster::lemma_clone_class_lengths(files, group, config.parameterize_literals);
    clone_types_tell_texts(files, group);
    boilerplate_tells_no_logic(files, group);
    let counts = crate::cluster::line_counts(files, group);
    lemma_least_attained(counts);
    assert forall|i: int| 0 <= i < group.len() implies {
        let file = files[(#[trigger] group[i]).file as int];
        counts[i] == line_ended(file, group[i].end - 1) - line_begun(file, group[i].start as int)
            + 1
    } by {
        assert(crate::matching::occurs(files, group[i]));
        assert(crate::index::file_ready(*files[group[i].file as int]));
        occurrences_stand_on_their_lines(files[group[i].file as int], group[i]);
    }
    if qualifies(files, group, config) {
        let i = choose|i: int|
            0 <= i < counts.len() && #[trigger] counts[i] == crate::cluster::least(counts);
        assert(crate::matching::occurs(files, group[i]));
        assert(counts[i] >= config.min_lines);
    }
    if crate::cluster::is_reported(files, group, config) {
        assert forall|i: int| 0 <= i < group.len() implies {
            let file = files[(#[trigger] group[i]).file as int];
            line_ended(file, group[i].end - 1) - line_begun(file, group[i].start as int) + 1
                >= config.min_lines
        } by {
            assert(counts[i] >= crate::cluster::least(counts));
        }
    }
}

/// A limit on a report keeps its first groups, and no limit all of them.
pub proof fn limits_keep_the_first<A>(items: Seq<A>, limit: Option<usize>)
    ensures
        match limit {
            None => crate::cluster::limited(items, limit) == items,
            Some(n) => {
                &&& crate::cluster::limited(items, limit).len() == (if n <= items.len() {
                    n as int
                } else {
                    items.len() as int
                })
                &&& forall|i: int|
                    0 <= i < n && i < items.len() ==> #[trigger] crate::cluster::limited(
                        items,
                        limit,
                    )[i] == items[i]
            },
        },
{
}

/// What a report says of each of its groups, in terms of the files: every occurrence is a range of
/// the tokens of a file that is exactly one unit or container, of the stated length and of enough
/// lines. They come in ascending order, by file, then by place. The group qualifies.
pub proof fn reports_mean_what_they_say(
    files: Seq<&SourceFile>,
    groups: Seq<(Seq<Occurrence>, int, CloneType)>,
    config: Config,
    g: int,
)
    requires
        are_ready(files),
        crate::findings::are_findings(files, groups, config),
        0 <= g < groups.len(),
    ensures
        ({
            let group = groups[g];
            &&& group.0.len() > 0
            &&& qualifies(files, group.0, config)
            &&& forall|i: int|
                0 <= i < group.0.len() ==> {
                    let occurrence = #[trigger] group.0[i];
                    let tokens = files[occurrence.file as int].tokens@;
                    let first = tokens[occurrence.start as int];
                    &&& occurrence.file < files.len()
                    &&& occurrence.start < occurrence.end <= tokens.len()
                    &&& occurrence.end - occurrence.start == group.1
                    &&& (first.flags & 1 != 0 && first.unit_end_of_start == occurrence.end) || (
                    first.flags & 4 != 0 && first.container_end_of_start == occurrence.end)
                }
            &&& forall|i: int, j: int|
                #![trigger group.0[i], group.0[j]]
                0 <= i < j < group.0.len() ==> {
                    let a = group.0[i];
                    let b = group.0[j];
                    a.file < b.file || (a.file == b.file && a.start < b.start)
                }
            &&& group.2 == (if all_spelled_alike(files, group.0) {
                CloneType::Type1
            } else {
                CloneType::Type2
            })
            &&& config.max_groups matches Some(limit) ==> groups.len() <= limit
        }),
{
    let group = groups[g];
    assert(crate::findings::is_finding(files, group, config));
    what_qualifies_is_reported(files, group.0, config);
    assert(crate::matching::files_wf(files)) by {
        assert forall|f: int| 0 <= f < files.len() implies (#[trigger] files[f]).wf() by {
            assert(crate::index::file_ready(*files[f]));
        }
    }
    let counts = crate::cluster::line_counts(files, group.0);
    lemma_least_attained(counts);
    let least = choose|i: int|
        0 <= i < counts.len() && #[trigger] counts[i] == crate::cluster::least(counts);
    assert(files[group.0[least].file as int].lines_of(group.0[least]) >= config.min_lines);
    assert(crate::cluster::is_reported(files, group.0, config));
    assert forall|i: int| 0 <= i < group.0.len() implies {
        let occurrence = #[trigger] group.0[i];
        let tokens = files[occurrence.file as int].tokens@;
        let first = tokens[occurrence.start as int];
        &&& occurrence.file < files.len()
        &&& occurrence.start < occurrence.end <= tokens.len()
        &&& occurrence.end - occurrence.start == group.1
        &&& (first.flags & 1 != 0 && first.unit_end_of_start == occurrence.end) || (first.flags & 4
            != 0 && first.container_end_of_start == occurrence.end)
    } by {
        let occurrence = group.0[i];
        assert(crate::matching::occurs(files, occurrence));
        assert(crate::spans::is_single_unit(
            crate::cluster::tokens_in(files, occurrence.file),
            occurrence.start as int,
            occurrence.end as int,
        ));
    }
    assert forall|i: int, j: int|
        #![trigger group.0[i], group.0[j]]
        0 <= i < j < group.0.len() implies {
        let a = group.0[i];
        let b = group.0[j];
        a.file < b.file || (a.file == b.file && a.start < b.start)
    } by {
        crate::cluster::lemma_occurrence_key(group.0[i], group.0[j]);
        assert(group.0[i].end - group.0[i].start == group.1);
        assert(group.0[j].end - group.0[j].start == group.1);
    }
}

/// A report prints every group once and in order, each with the lines of its occurrences.
pub proof fn reports_print_each_group_once(
    files: Seq<&SourceFile>,
    groups: Seq<(Seq<Occurrence>, int, CloneType)>,
    n: int,
    k: int,
)
    requires
        are_ready(files),
        crate::server::groups_occur(files, groups),
        0 < n <= groups.len(),
        0 < k <= groups[n - 1].0.len(),
    ensures
        ({
            let group = groups[n - 1];
            let before = crate::cli::group_texts(files, groups, n - 1);
            let lines = crate::cli::occurrence_lines(files, group.0, group.0.len() as int);
            &&& crate::cli::group_texts(files, groups, 0) == Seq::<char>::empty()
            &&& crate::cli::group_texts(files, groups, n) == before + (printed_head(group, n)
                + lines)
            &&& crate::cli::occurrence_lines(files, group.0, 0) == Seq::<char>::empty()
            &&& crate::cli::occurrence_lines(files, group.0, k) == crate::cli::occurrence_lines(
                files,
                group.0,
                k - 1,
            ) + printed_line(files, group.0[k - 1])
        }),
{
    let group = groups[n - 1];
    let occurrence = group.0[k - 1];
    let file = files[occurrence.file as int];
    assert(crate::cluster::all_occur(files, group.0));
    assert(crate::matching::occurs(files, group.0[k - 1]));
    assert(crate::index::file_ready(*file));
    occurrences_stand_on_their_lines(file, occurrence);
    let head = printed_head(group, n);
    let lines = crate::cli::occurrence_lines(files, group.0, group.0.len() as int);
    assert(crate::cli::group_text(files, group, n) =~= head + lines);
}

} // verus!
