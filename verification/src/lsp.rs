//! The analysis behind the editor: which code of the open documents is duplicated.
use std::collections::HashSet;
use vstd::prelude::*;
use vstd::utf8::encode_utf8;

use crate::config::Config;
use crate::detect::{add_span_signatures, detect_filtered};
use crate::index::{length_fits, parse_source, SourceIndex};
use crate::language::LanguageId;
use crate::model::{CloneGroup, CloneType, Occurrence, SourceFile};
use crate::navigation::{clone_type_label, Location, NavGroup, NavOccurrence};
use crate::paths::is_within;
use crate::pending::{Change, ChangedRegion, PendingChanges};
use crate::positions::{apply_change, Position, Range, TextChange};
use crate::regions::token_range_for_bytes;
use crate::text::{push_number, push_text, str_equal, string_of};
use crate::tokenize::KindTables;

verus! {

/// How many warnings are shown per document at most.
pub const MAX_DIAGNOSTICS_PER_FILE: usize = 100;

/// The position of a byte of a file.
fn file_position(file: &SourceFile, byte: usize) -> (position: Position)
    requires
        file.wf(),
        byte <= file.bytes().len(),
    ensures
        position == crate::positions::byte_position(file.bytes(), byte as int),
{
    let bytes = file.text.as_str().as_bytes();
    let ghost all = file.bytes();
    let ghost starts = crate::model::line_starts_of(all, all.len() as int);
    proof {
        crate::model::lemma_line_starts(all, all.len() as int);
        crate::model::lemma_line_starts(all, byte as int);
        crate::model::lemma_line_feeds_monotonic(all, byte as int, all.len() as int);
    }
    let mut low: usize = 0;
    let mut high: usize = file.line_starts.len();
    while low < high
        invariant
            all == file.bytes(),
            starts == crate::model::line_starts_of(all, all.len() as int),
            file.line_starts@ == starts,
            forall|i: int|
                0 <= i < starts.len() ==> ((#[trigger] starts[i]) <= byte <==> i < 1
                    + crate::model::line_feeds(all, byte as int)),
            low <= 1 + crate::model::line_feeds(all, byte as int) <= high <= starts.len(),
        decreases high - low,
    {
        let middle: usize = low + (high - low) / 2;
        if file.line_starts[middle] as usize <= byte {
            low = middle + 1;
        } else {
            high = middle;
        }
    }
    let line: usize = low - 1;
    proof {
        assert(starts[line as int] <= byte);
        crate::positions::lemma_line_begins(all, all.len() as int, line as int);
    }
    let units: u64 = crate::positions::units_between(
        bytes,
        file.line_starts[line] as usize,
        byte,
    );
    Position { line: line as u32, character: units as u32 }
}

/// Where an occurrence is: its path, and the range from its first token to the end of its last.
pub open spec fn nav_place(files: Seq<&SourceFile>, occurrence: Occurrence) -> (Seq<char>, Range) {
    let file = files[occurrence.file as int];
    (
        file.path@,
        Range {
            start: crate::positions::byte_position(
                file.bytes(),
                file.tokens@[occurrence.start as int].start as int,
            ),
            end: crate::positions::byte_position(
                file.bytes(),
                file.tokens@[occurrence.end - 1].end as int,
            ),
        },
    )
}

/// A clone group with the places of its occurrences.
pub open spec fn nav_group(
    files: Seq<&SourceFile>,
    group: (Seq<Occurrence>, int, CloneType),
) -> (Seq<(Seq<char>, Range)>, int, CloneType) {
    (
        group.0.map_values(|occurrence: Occurrence| nav_place(files, occurrence)),
        group.1,
        group.2,
    )
}

fn nav_occurrence(files: &[&SourceFile], occurrence: &Occurrence) -> (nav: NavOccurrence)
    requires
        crate::matching::files_wf(files@),
        crate::matching::occurs(files@, *occurrence),
    ensures
        nav.place() == nav_place(files@, *occurrence),
{
    let file = files[occurrence.file as usize];
    assert(files@[occurrence.file as int].wf());
    let first: usize = occurrence.start as usize;
    let last: usize = occurrence.end as usize - 1;
    assert(crate::encode::token_within(file.tokens@[first as int], file.bytes().len()));
    assert(crate::encode::token_within(file.tokens@[last as int], file.bytes().len()));
    NavOccurrence {
        path: file.path.clone(),
        range: Range {
            start: file_position(file, file.tokens[first].start as usize),
            end: file_position(file, file.tokens[last].end as usize),
        },
    }
}

fn to_nav(files: &[&SourceFile], group: &CloneGroup) -> (nav: NavGroup)
    requires
        crate::matching::files_wf(files@),
        crate::cluster::all_occur(files@, group.occurrences@),
    ensures
        nav.values() == nav_group(files@, crate::cluster::group_view(*group)),
{
    let ghost wanted = group.occurrences@.map_values(
        |occurrence: Occurrence| nav_place(files@, occurrence),
    );
    let mut occurrences: Vec<NavOccurrence> = Vec::new();
    let mut i: usize = 0;
    assert(crate::navigation::places_of(occurrences@) =~= wanted.take(0));
    while i < group.occurrences.len()
        invariant
            crate::matching::files_wf(files@),
            crate::cluster::all_occur(files@, group.occurrences@),
            wanted == group.occurrences@.map_values(
                |occurrence: Occurrence| nav_place(files@, occurrence),
            ),
            i <= group.occurrences@.len(),
            crate::navigation::places_of(occurrences@) == wanted.take(i as int),
        decreases group.occurrences@.len() - i,
    {
        assert(crate::matching::occurs(files@, group.occurrences@[i as int]));
        let ghost before = crate::navigation::places_of(occurrences@);
        occurrences.push(nav_occurrence(files, &group.occurrences[i]));
        i = i + 1;
        assert(crate::navigation::places_of(occurrences@) =~= before.push(wanted[i - 1]));
        assert(wanted.take(i as int) =~= wanted.take(i - 1).push(wanted[i - 1]));
    }
    assert(wanted.take(i as int) =~= wanted);
    NavGroup { token_count: group.token_count, clone_type: group.clone_type, occurrences }
}

/// One of the open documents has this path.
pub open spec fn is_open(open: Seq<&SourceFile>, path: Seq<char>) -> bool {
    exists|i: int| 0 <= i < open.len() && (#[trigger] open[i]).path@ == path
}

fn is_open_path(open: &Vec<&SourceFile>, path: &str) -> (found: bool)
    ensures
        found == is_open(open@, path@),
{
    let mut i: usize = 0;
    while i < open.len()
        invariant
            i <= open@.len(),
            forall|k: int| 0 <= k < i ==> (#[trigger] open@[k]).path@ != path@,
        decreases open@.len() - i,
    {
        if str_equal(open[i].path.as_str(), path) {
            assert(open@[i as int].path@ == path@);
            return true;
        }
        i = i + 1;
    }
    false
}

/// The document lies in the workspace.
pub open spec fn in_workspace<'a>(root: Seq<char>) -> spec_fn(&'a SourceFile) -> bool {
    |file: &'a SourceFile| crate::paths::relative_to(file.path@, root) is Some
}

/// The open documents that lie in the workspace.
pub fn workspace_documents<'a>(documents: &Vec<&'a SourceFile>, root: &str) -> (open: Vec<
    &'a SourceFile,
>)
    ensures
        open@ == documents@.filter(in_workspace(root@)),
{
    let ghost pred = in_workspace(root@);
    let mut open: Vec<&'a SourceFile> = Vec::new();
    let mut i: usize = 0;
    proof {
        assert(documents@.take(0) =~= Seq::empty());
        crate::sort::lemma_filter_none(documents@.take(0), pred);
    }
    while i < documents.len()
        invariant
            pred == in_workspace(root@),
            i <= documents@.len(),
            open@ == documents@.take(i as int).filter(pred),
        decreases documents@.len() - i,
    {
        proof {
            assert(documents@.take(i + 1) =~= documents@.take(i as int).push(
                documents@[i as int],
            ));
            crate::sort::lemma_filter_push(documents@.take(i as int), documents@[i as int], pred);
        }
        if is_within(documents[i].path.as_str(), root) {
            open.push(documents[i]);
        }
        i = i + 1;
    }
    assert(documents@.take(i as int) =~= documents@);
    open
}

/// Those of the first `n` indexed files that are not open.
pub open spec fn closed_files<'a>(
    files: Seq<SourceFile>,
    open: Seq<&'a SourceFile>,
    n: int,
) -> Seq<&'a SourceFile>
    decreases n,
{
    if n <= 0 {
        Seq::empty()
    } else if is_open(open, files[n - 1].path@) {
        closed_files(files, open, n - 1)
    } else {
        closed_files(files, open, n - 1).push(&files[n - 1])
    }
}

/// The files that are analyzed: the indexed ones, with open documents in place of those that are
/// open.
pub open spec fn analyzed_files<'a>(files: Seq<SourceFile>, open: Seq<&'a SourceFile>) -> Seq<
    &'a SourceFile,
> {
    closed_files(files, open, files.len() as int) + open
}

fn files_to_analyze<'a>(index: &'a SourceIndex, open: &Vec<&'a SourceFile>) -> (files: Vec<
    &'a SourceFile,
>)
    requires
        index.wf(),
        crate::cluster::files_ready(open@),
    ensures
        files@ == analyzed_files(index.content(), open@),
        crate::cluster::files_ready(files@),
        files@.len() <= index.content().len() + open@.len(),
{
    let ghost indexed = index.content();
    proof {
        index.lemma_files_ready();
    }
    let known = index.files();
    let mut files: Vec<&'a SourceFile> = Vec::new();
    let mut n: usize = 0;
    while n < known.len()
        invariant
            indexed == index.content(),
            known@ == indexed,
            crate::index::all_ready(indexed),
            n <= known@.len(),
            files@ == closed_files(indexed, open@, n as int),
            files@.len() <= n,
            crate::cluster::files_ready(files@),
        decreases known@.len() - n,
    {
        assert(crate::index::file_ready(indexed[n as int]));
        if !is_open_path(open, known[n].path.as_str()) {
            let ghost before = files@;
            files.push(&known[n]);
            assert forall|i: int| 0 <= i < files@.len() implies (#[trigger] files@[i]).wf()
                && crate::spans::marks_wf(files@[i].tokens@) by {
                if i < before.len() {
                    assert(files@[i] == before[i]);
                }
            }
        }
        n = n + 1;
    }
    let ghost closed = files@;
    let mut i: usize = 0;
    assert(files@ =~= closed + open@.take(0));
    while i < open.len()
        invariant
            crate::cluster::files_ready(open@),
            i <= open@.len(),
            files@ == closed + open@.take(i as int),
            crate::cluster::files_ready(files@),
        decreases open@.len() - i,
    {
        let ghost before = files@;
        files.push(open[i]);
        assert forall|k: int| 0 <= k < files@.len() implies (#[trigger] files@[k]).wf()
            && crate::spans::marks_wf(files@[k].tokens@) by {
            if k < before.len() {
                assert(files@[k] == before[k]);
            } else {
                assert(open@[i as int].wf());
            }
        }
        i = i + 1;
        assert(files@ =~= closed + open@.take(i as int));
    }
    assert(open@.take(i as int) =~= open@);
    files
}

/// The file that has a path: an open document, or else an indexed file.
pub open spec fn source_of(
    files: Seq<SourceFile>,
    open: Seq<&SourceFile>,
    path: Seq<char>,
    from: int,
) -> Option<SourceFile>
    decreases open.len() - from,
{
    if from < open.len() {
        if open[from].path@ == path {
            Some(*open[from])
        } else {
            source_of(files, open, path, from + 1)
        }
    } else {
        match crate::index::first_of(crate::index::paths_of(files), path, 0) {
            Some(at) => Some(files[at]),
            None => None,
        }
    }
}

fn find_source<'a>(index: &'a SourceIndex, open: &Vec<&'a SourceFile>, path: &str) -> (source: Option<
    &'a SourceFile,
>)
    requires
        index.wf(),
        forall|i: int| 0 <= i < open@.len() ==> crate::index::file_ready(*#[trigger] open@[i]),
    ensures
        match source {
            Some(file) => source_of(index.content(), open@, path@, 0) == Some(*file)
                && crate::index::file_ready(*file),
            None => source_of(index.content(), open@, path@, 0) is None,
        },
{
    let mut i: usize = 0;
    while i < open.len()
        invariant
            forall|i: int| 0 <= i < open@.len() ==> crate::index::file_ready(*#[trigger] open@[i]),
            i <= open@.len(),
            source_of(index.content(), open@, path@, i as int) == source_of(
                index.content(),
                open@,
                path@,
                0,
            ),
        decreases open@.len() - i,
    {
        if str_equal(open[i].path.as_str(), path) {
            assert(crate::index::file_ready(*open@[i as int]));
            return Some(open[i]);
        }
        i = i + 1;
    }
    match index.file_by_path(path) {
        Some(at) => {
            proof {
                index.lemma_files_ready();
                crate::index::lemma_first_of_found(
                    crate::index::paths_of(index.content()),
                    path@,
                    0,
                );
                assert(crate::index::file_ready(index.content()[at as int]));
            }
            Some(&index.files()[at])
        },
        None => None,
    }
}

/// The signatures of the windows around the first `n` byte ranges of a file.
pub open spec fn range_signatures(
    file: SourceFile,
    ranges: Seq<(usize, usize)>,
    n: int,
    config: Config,
) -> Set<u64>
    decreases n,
{
    if n <= 0 {
        Set::empty()
    } else {
        let (start, end) = crate::regions::bytes_range(
            file,
            ranges[n - 1].0 as int,
            ranges[n - 1].1 as int,
            config.seed_window as int,
        );
        range_signatures(file, ranges, n - 1, config).union(
            crate::detect::span_signatures(
                file,
                start,
                end,
                config.seed_window as int,
                config.parameterize_literals,
            ),
        )
    }
}

/// The signatures of the windows that a change touches.
pub open spec fn change_signatures(
    file: SourceFile,
    change: crate::pending::Change,
    config: Config,
) -> Set<u64> {
    match change {
        crate::pending::Change::Whole => crate::detect::span_signatures(
            file,
            0,
            file.tokens@.len() as int,
            config.seed_window as int,
            config.parameterize_literals,
        ),
        crate::pending::Change::Bytes(ranges) => range_signatures(
            file,
            ranges,
            ranges.len() as int,
            config,
        ),
    }
}

/// The signatures that the first `n` notes touch. A note on a file that is not there touches none.
pub open spec fn touched_signatures(
    files: Seq<SourceFile>,
    open: Seq<&SourceFile>,
    notes: Seq<(String, ChangedRegion)>,
    n: int,
    config: Config,
) -> Set<u64>
    decreases n,
{
    if n <= 0 {
        Set::empty()
    } else {
        let before = touched_signatures(files, open, notes, n - 1, config);
        match source_of(files, open, notes[n - 1].0@, 0) {
            Some(file) => before.union(change_signatures(file, notes[n - 1].1.change(), config)),
            None => before,
        }
    }
}

fn add_change(set: &mut HashSet<u64>, file: &SourceFile, region: &ChangedRegion, config: &Config)
    requires
        crate::index::file_ready(*file),
    ensures
        final(set)@ == old(set)@.union(change_signatures(*file, region.change(), *config)),
{
    match region {
        ChangedRegion::Whole => {
            add_span_signatures(set, file, 0, file.tokens.len(), config);
        },
        ChangedRegion::Bytes(ranges) => {
            let ghost before = set@;
            let mut n: usize = 0;
            assert(set@ =~= before.union(range_signatures(*file, ranges@, 0, *config)));
            while n < ranges.len()
                invariant
                    crate::index::file_ready(*file),
                    n <= ranges@.len(),
                    set@ == before.union(range_signatures(*file, ranges@, n as int, *config)),
                decreases ranges@.len() - n,
            {
                let (start, end) = token_range_for_bytes(
                    file,
                    ranges[n].0,
                    ranges[n].1,
                    config.seed_window,
                );
                add_span_signatures(set, file, start, end, config);
                n = n + 1;
                assert(set@ =~= before.union(range_signatures(*file, ranges@, n as int, *config)));
            }
        },
    }
}

/// The signatures that the analysis starts from: those of the clones reported last, and those of
/// the windows that have changed since.
fn allowed_signatures(
    previous: HashSet<u64>,
    index: &SourceIndex,
    open: &Vec<&SourceFile>,
    pending: &PendingChanges,
    config: &Config,
) -> (allowed: HashSet<u64>)
    requires
        index.wf(),
        forall|i: int| 0 <= i < open@.len() ==> crate::index::file_ready(*#[trigger] open@[i]),
    ensures
        allowed@ == previous@.union(
            touched_signatures(
                index.content(),
                open@,
                pending.notes(),
                pending.notes().len() as int,
                *config,
            ),
        ),
{
    let mut allowed = previous;
    let notes = pending.entries();
    let ghost before = previous@;
    let ghost all = pending.notes();
    let ghost files = index.content();
    let mut n: usize = 0;
    assert(allowed@ =~= before.union(touched_signatures(files, open@, all, 0, *config)));
    while n < notes.len()
        invariant
            index.wf(),
            forall|i: int| 0 <= i < open@.len() ==> crate::index::file_ready(*#[trigger] open@[i]),
            files == index.content(),
            all == pending.notes(),
            notes@ == all,
            n <= notes@.len(),
            allowed@ == before.union(touched_signatures(files, open@, all, n as int, *config)),
        decreases notes@.len() - n,
    {
        let note = &notes[n];
        if let Some(file) = find_source(index, open, note.0.as_str()) {
            add_change(&mut allowed, file, &note.1, config);
        }
        n = n + 1;
        assert(allowed@ =~= before.union(touched_signatures(files, open@, all, n as int, *config)));
    }
    allowed
}

/// A duplicate of the code that a warning is about.
#[derive(Debug)]
pub struct Related {
    pub location: Location,
    pub message: String,
}

/// A warning about duplicated code.
#[derive(Debug)]
pub struct Diagnostic {
    pub range: Range,
    pub message: String,
    pub related: Vec<Related>,
}

impl Related {
    pub open spec fn values(&self) -> ((Seq<char>, Range), Seq<char>) {
        (self.location.place(), self.message@)
    }
}

impl Diagnostic {
    pub open spec fn values(&self) -> (Range, Seq<char>, Seq<((Seq<char>, Range), Seq<char>)>) {
        (self.range, self.message@, self.related@.map_values(|related: Related| related.values()))
    }
}

/// What a warning says.
pub open spec fn warning_text(group: (Seq<(Seq<char>, Range)>, int, CloneType)) -> Seq<char> {
    "Duplicated code: "@ + crate::text::decimal(group.1 as nat) + " tokens, "@
        + crate::text::decimal(group.0.len()) + " occurrences ("@ + crate::navigation::label_of(
        group.2,
    ) + ")."@
}

/// What is said of a duplicate.
pub open spec fn related_text(place: (Seq<char>, Range)) -> Seq<char> {
    "duplicated at "@ + place.0 + ":"@ + crate::text::decimal((place.1.start.line + 1) as nat)
}

/// The first `n` places, except the one that the warning is at, with what is said of them.
pub open spec fn related_places(places: Seq<(Seq<char>, Range)>, n: int, except: int) -> Seq<
    ((Seq<char>, Range), Seq<char>),
>
    decreases n,
{
    if n <= 0 {
        Seq::empty()
    } else if n - 1 == except {
        related_places(places, n - 1, except)
    } else {
        related_places(places, n - 1, except).push((places[n - 1], related_text(places[n - 1])))
    }
}

/// The warning at one of the places of a group.
pub open spec fn warning_at(group: (Seq<(Seq<char>, Range)>, int, CloneType), at: int) -> (
    Range,
    Seq<char>,
    Seq<((Seq<char>, Range), Seq<char>)>,
) {
    (
        group.0[at].1,
        warning_text(group),
        related_places(group.0, group.0.len() as int, at),
    )
}

/// The warnings of a document, with those for the first `n` places of a group behind them. There
/// are no more than the limit.
pub open spec fn with_warnings(
    list: Seq<(Range, Seq<char>, Seq<((Seq<char>, Range), Seq<char>)>)>,
    group: (Seq<(Seq<char>, Range)>, int, CloneType),
    n: int,
    path: Seq<char>,
) -> Seq<(Range, Seq<char>, Seq<((Seq<char>, Range), Seq<char>)>)>
    decreases n,
{
    if n <= 0 {
        list
    } else {
        let before = with_warnings(list, group, n - 1, path);
        if group.0[n - 1].0 == path && before.len() < MAX_DIAGNOSTICS_PER_FILE {
            before.push(warning_at(group, n - 1))
        } else {
            before
        }
    }
}

/// The warnings of a document for the first `n` groups.
pub open spec fn warnings_for(
    groups: Seq<(Seq<(Seq<char>, Range)>, int, CloneType)>,
    n: int,
    path: Seq<char>,
) -> Seq<(Range, Seq<char>, Seq<((Seq<char>, Range), Seq<char>)>)>
    decreases n,
{
    if n <= 0 {
        Seq::empty()
    } else {
        with_warnings(
            warnings_for(groups, n - 1, path),
            groups[n - 1],
            groups[n - 1].0.len() as int,
            path,
        )
    }
}

/// The warnings as values.
pub open spec fn diagnostic_values(diagnostics: Seq<Diagnostic>) -> Seq<
    (Range, Seq<char>, Seq<((Seq<char>, Range), Seq<char>)>),
> {
    diagnostics.map_values(|diagnostic: Diagnostic| diagnostic.values())
}

fn warning_message(group: &NavGroup) -> (message: String)
    ensures
        message@ == warning_text(group.values()),
{
    let mut out: Vec<char> = Vec::new();
    push_text(&mut out, "Duplicated code: ");
    push_number(&mut out, group.token_count as u64);
    push_text(&mut out, " tokens, ");
    push_number(&mut out, group.occurrences.len() as u64);
    push_text(&mut out, " occurrences (");
    push_text(&mut out, clone_type_label(group.clone_type));
    push_text(&mut out, ").");
    assert(out@ =~= warning_text(group.values()));
    string_of(&out)
}

fn related_to(occurrence: &NavOccurrence) -> (related: Related)
    ensures
        related.values() == (occurrence.place(), related_text(occurrence.place())),
{
    let mut out: Vec<char> = Vec::new();
    push_text(&mut out, "duplicated at ");
    push_text(&mut out, occurrence.path.as_str());
    push_text(&mut out, ":");
    push_number(&mut out, occurrence.range.start.line as u64 + 1);
    assert(out@ =~= related_text(occurrence.place()));
    Related {
        location: Location { path: occurrence.path.clone(), range: occurrence.range },
        message: string_of(&out),
    }
}

fn warn_at(group: &NavGroup, at: usize) -> (diagnostic: Diagnostic)
    requires
        at < group.occurrences@.len(),
    ensures
        diagnostic.values() == warning_at(group.values(), at as int),
{
    let ghost places = crate::navigation::places_of(group.occurrences@);
    let mut related: Vec<Related> = Vec::new();
    let mut n: usize = 0;
    assert(related@.map_values(|related: Related| related.values()) =~= Seq::empty());
    while n < group.occurrences.len()
        invariant
            places == crate::navigation::places_of(group.occurrences@),
            n <= places.len(),
            related@.map_values(|related: Related| related.values()) == related_places(
                places,
                n as int,
                at as int,
            ),
        decreases places.len() - n,
    {
        assert(places[n as int] == group.occurrences@[n as int].place());
        if n != at {
            let ghost before = related@.map_values(|related: Related| related.values());
            related.push(related_to(&group.occurrences[n]));
            assert(related@.map_values(|related: Related| related.values()) =~= before.push(
                (places[n as int], related_text(places[n as int])),
            ));
        }
        n = n + 1;
    }
    Diagnostic {
        range: group.occurrences[at].range,
        message: warning_message(group),
        related,
    }
}

/// The warnings of a document.
pub fn diagnostics_for(groups: &Vec<NavGroup>, path: &str) -> (diagnostics: Vec<Diagnostic>)
    ensures
        diagnostic_values(diagnostics@) == warnings_for(
            crate::navigation::nav_values(groups@),
            groups@.len() as int,
            path@,
        ),
{
    let ghost values = crate::navigation::nav_values(groups@);
    let mut diagnostics: Vec<Diagnostic> = Vec::new();
    let mut g: usize = 0;
    assert(diagnostic_values(diagnostics@) =~= Seq::empty());
    while g < groups.len()
        invariant
            values == crate::navigation::nav_values(groups@),
            g <= groups@.len(),
            diagnostic_values(diagnostics@) == warnings_for(values, g as int, path@),
        decreases groups@.len() - g,
    {
        let group = &groups[g];
        assert(values[g as int] == group.values());
        let ghost places = crate::navigation::places_of(group.occurrences@);
        let ghost list = diagnostic_values(diagnostics@);
        let mut n: usize = 0;
        while n < group.occurrences.len()
            invariant
                places == crate::navigation::places_of(group.occurrences@),
                group.values().0 == places,
                n <= places.len(),
                diagnostic_values(diagnostics@) == with_warnings(
                    list,
                    group.values(),
                    n as int,
                    path@,
                ),
            decreases places.len() - n,
        {
            assert(places[n as int] == group.occurrences@[n as int].place());
            assert(diagnostic_values(diagnostics@).len() == diagnostics@.len());
            if str_equal(group.occurrences[n].path.as_str(), path) && diagnostics.len()
                < MAX_DIAGNOSTICS_PER_FILE {
                let ghost before = diagnostic_values(diagnostics@);
                diagnostics.push(warn_at(group, n));
                assert(diagnostic_values(diagnostics@) =~= before.push(
                    warning_at(group.values(), n as int),
                ));
            }
            n = n + 1;
        }
        g = g + 1;
    }
    diagnostics
}

/// No document has more warnings than the limit.
pub proof fn warnings_are_limited(
    groups: Seq<(Seq<(Seq<char>, Range)>, int, CloneType)>,
    n: int,
    path: Seq<char>,
)
    ensures
        warnings_for(groups, n, path).len() <= MAX_DIAGNOSTICS_PER_FILE,
    decreases n,
{
    if n > 0 {
        warnings_are_limited(groups, n - 1, path);
        lemma_with_warnings_limited(
            warnings_for(groups, n - 1, path),
            groups[n - 1],
            groups[n - 1].0.len() as int,
            path,
        );
    }
}

proof fn lemma_with_warnings_limited(
    list: Seq<(Range, Seq<char>, Seq<((Seq<char>, Range), Seq<char>)>)>,
    group: (Seq<(Seq<char>, Range)>, int, CloneType),
    n: int,
    path: Seq<char>,
)
    requires
        list.len() <= MAX_DIAGNOSTICS_PER_FILE,
    ensures
        with_warnings(list, group, n, path).len() <= MAX_DIAGNOSTICS_PER_FILE,
    decreases n,
{
    if n > 0 {
        lemma_with_warnings_limited(list, group, n - 1, path);
    }
}

/// One of the occurrences of the group is in an open document.
pub open spec fn concerns_open<'a>(files: Seq<&'a SourceFile>, open: Seq<&'a SourceFile>) -> spec_fn(
    (Seq<Occurrence>, int, CloneType),
) -> bool {
    |group: (Seq<Occurrence>, int, CloneType)|
        exists|i: int|
            0 <= i < group.0.len() && is_open(
                open,
                files[(#[trigger] group.0[i]).file as int].path@,
            )
}

/// The signatures of the windows that touch the first `n` occurrences.
pub open spec fn occurrence_signatures(
    files: Seq<&SourceFile>,
    occurrences: Seq<Occurrence>,
    n: int,
    config: Config,
) -> Set<u64>
    decreases n,
{
    if n <= 0 {
        Set::empty()
    } else {
        let occurrence = occurrences[n - 1];
        occurrence_signatures(files, occurrences, n - 1, config).union(
            crate::detect::span_signatures(
                *files[occurrence.file as int],
                occurrence.start as int,
                occurrence.end as int,
                config.seed_window as int,
                config.parameterize_literals,
            ),
        )
    }
}

/// The signatures of the windows that touch an occurrence of the first `n` groups.
pub open spec fn group_signatures(
    files: Seq<&SourceFile>,
    groups: Seq<(Seq<Occurrence>, int, CloneType)>,
    n: int,
    config: Config,
) -> Set<u64>
    decreases n,
{
    if n <= 0 {
        Set::empty()
    } else {
        group_signatures(files, groups, n - 1, config).union(
            occurrence_signatures(
                files,
                groups[n - 1].0,
                groups[n - 1].0.len() as int,
                config,
            ),
        )
    }
}

/// The clone groups that an analysis shows: those that grow from the allowed signatures and
/// concern an open document.
pub open spec fn shown_groups<'a>(
    files: Seq<&'a SourceFile>,
    open: Seq<&'a SourceFile>,
    allowed: Set<u64>,
    config: Config,
) -> Seq<(Seq<Occurrence>, int, CloneType)> {
    crate::detect::detected(files, config, Some(allowed)).filter(concerns_open(files, open))
}

/// What an analysis finds: the groups to navigate, the signatures that it rests on, and the
/// warnings of each open document.
pub struct Analysis {
    pub groups: Vec<NavGroup>,
    pub signatures: HashSet<u64>,
    pub diagnostics: Vec<Vec<Diagnostic>>,
}

/// What is found about some groups.
pub open spec fn is_analysis(
    analysis: Analysis,
    files: Seq<&SourceFile>,
    open: Seq<&SourceFile>,
    groups: Seq<(Seq<Occurrence>, int, CloneType)>,
    config: Config,
) -> bool {
    let nav = groups.map_values(
        |group: (Seq<Occurrence>, int, CloneType)| nav_group(files, group),
    );
    &&& crate::navigation::nav_values(analysis.groups@) == nav
    &&& analysis.signatures@ == group_signatures(files, groups, groups.len() as int, config)
    &&& analysis.diagnostics@.len() == open.len()
    &&& forall|d: int|
        0 <= d < open.len() ==> diagnostic_values((#[trigger] analysis.diagnostics@[d])@)
            == warnings_for(nav, nav.len() as int, open[d].path@)
}

proof fn lemma_occurrence_signatures(
    files: Seq<&SourceFile>,
    occurrences: Seq<Occurrence>,
    n: int,
    k: int,
    config: Config,
)
    requires
        0 <= k < n <= occurrences.len(),
    ensures
        crate::detect::span_signatures(
            *files[occurrences[k].file as int],
            occurrences[k].start as int,
            occurrences[k].end as int,
            config.seed_window as int,
            config.parameterize_literals,
        ).subset_of(occurrence_signatures(files, occurrences, n, config)),
    decreases n,
{
    if k < n - 1 {
        lemma_occurrence_signatures(files, occurrences, n - 1, k, config);
    }
}

proof fn lemma_group_signatures(
    files: Seq<&SourceFile>,
    groups: Seq<(Seq<Occurrence>, int, CloneType)>,
    n: int,
    g: int,
    config: Config,
)
    requires
        0 <= g < n <= groups.len(),
    ensures
        occurrence_signatures(files, groups[g].0, groups[g].0.len() as int, config).subset_of(
            group_signatures(files, groups, n, config),
        ),
    decreases n,
{
    if g < n - 1 {
        lemma_group_signatures(files, groups, n - 1, g, config);
    }
}

/// What an analysis has shown is looked at again by the next one: as long as the files stay as
/// they are, every candidate of full detection that touches an occurrence of a shown group is a
/// candidate of the next analysis, whose allowed signatures contain those of this one. Other
/// candidates may be missing there, and a missing one may have stood in the way of a clone, so the
/// next analysis can show more than this one did.
pub proof fn shown_clones_are_looked_at_again(
    analysis: Analysis,
    files: Seq<&SourceFile>,
    open: Seq<&SourceFile>,
    groups: Seq<(Seq<Occurrence>, int, CloneType)>,
    config: Config,
    touched: Set<u64>,
    g: int,
    k: int,
    candidate: crate::matching::Candidate,
)
    requires
        crate::matching::files_wf(files),
        files.len() <= u32::MAX,
        is_analysis(analysis, files, open, groups, config),
        0 <= g < groups.len(),
        0 <= k < groups[g].0.len(),
        crate::matching::occurs(files, groups[g].0[k]),
        crate::filtering::candidates_from(files, config, None).contains(candidate),
        ({
            let occurrence = groups[g].0[k];
            let window = config.seed_window as int;
            let file = occurrence.file as int;
            let start = occurrence.start as int;
            let end = occurrence.end as int;
            ||| crate::filtering::touches(
                candidate.file_a,
                candidate.start_a,
                window,
                file,
                start,
                end,
            )
            ||| crate::filtering::touches(
                candidate.file_b,
                candidate.start_b,
                window,
                file,
                start,
                end,
            )
        }),
    ensures
        crate::filtering::candidates_from(
            files,
            config,
            Some(analysis.signatures@.union(touched)),
        ).contains(candidate),
{
    let occurrence = groups[g].0[k];
    lemma_occurrence_signatures(files, groups[g].0, groups[g].0.len() as int, k, config);
    lemma_group_signatures(files, groups, groups.len() as int, g, config);
    assert(files[occurrence.file as int].wf());
    crate::filtering::candidates_of_a_span_are_looked_at(
        files,
        config,
        analysis.signatures@.union(touched),
        occurrence.file as int,
        occurrence.start as int,
        occurrence.end as int,
        candidate,
    );
}

/// An analysis shows all that full detection finds about the open documents where the clones
/// shown last and the changes since then have every signature that occurs more than once.
pub proof fn repeated_windows_show_everything(
    files: Seq<&SourceFile>,
    open: Seq<&SourceFile>,
    previous: Set<u64>,
    touched: Set<u64>,
    config: Config,
)
    requires
        crate::filtering::allows_repeated(
            crate::candidates::all_seeds(
                files,
                config.seed_window as int,
                config.parameterize_literals,
                None,
                files.len() as int,
            ),
            previous.union(touched),
        ),
    ensures
        shown_groups(files, open, previous.union(touched), config) == crate::detect::detected(
            files,
            config,
            None,
        ).filter(concerns_open(files, open)),
{
    crate::filtering::windows_that_occur_once_can_be_left_out(
        files,
        config,
        previous.union(touched),
    );
}

fn group_concerns_open(files: &[&SourceFile], open: &Vec<&SourceFile>, group: &CloneGroup) -> (concerns:
    bool)
    requires
        crate::cluster::all_occur(files@, group.occurrences@),
    ensures
        concerns == concerns_open(files@, open@)(crate::cluster::group_view(*group)),
{
    let ghost occurrences = group.occurrences@;
    assert(crate::cluster::group_view(*group).0 == occurrences);
    let mut i: usize = 0;
    while i < group.occurrences.len()
        invariant
            occurrences == group.occurrences@,
            crate::cluster::group_view(*group).0 == occurrences,
            crate::cluster::all_occur(files@, occurrences),
            i <= occurrences.len(),
            forall|k: int|
                0 <= k < i ==> !is_open(
                    open@,
                    files@[(#[trigger] occurrences[k]).file as int].path@,
                ),
        decreases occurrences.len() - i,
    {
        assert(crate::matching::occurs(files@, occurrences[i as int]));
        let file = files[group.occurrences[i].file as usize];
        if is_open_path(open, file.path.as_str()) {
            assert(is_open(open@, files@[occurrences[i as int].file as int].path@));
            return true;
        }
        i = i + 1;
    }
    false
}

fn add_group_signatures(
    set: &mut HashSet<u64>,
    files: &[&SourceFile],
    group: &CloneGroup,
    config: &Config,
)
    requires
        crate::matching::files_wf(files@),
        crate::cluster::all_occur(files@, group.occurrences@),
    ensures
        final(set)@ == old(set)@.union(
            occurrence_signatures(
                files@,
                group.occurrences@,
                group.occurrences@.len() as int,
                *config,
            ),
        ),
{
    let ghost before = set@;
    let ghost occurrences = group.occurrences@;
    let mut n: usize = 0;
    assert(set@ =~= before.union(occurrence_signatures(files@, occurrences, 0, *config)));
    while n < group.occurrences.len()
        invariant
            crate::matching::files_wf(files@),
            occurrences == group.occurrences@,
            crate::cluster::all_occur(files@, occurrences),
            n <= occurrences.len(),
            set@ == before.union(occurrence_signatures(files@, occurrences, n as int, *config)),
        decreases occurrences.len() - n,
    {
        let occurrence = group.occurrences[n];
        assert(crate::matching::occurs(files@, occurrences[n as int]));
        assert(files@[occurrence.file as int].wf());
        add_span_signatures(
            set,
            files[occurrence.file as usize],
            occurrence.start as usize,
            occurrence.end as usize,
            config,
        );
        n = n + 1;
        assert(set@ =~= before.union(
            occurrence_signatures(files@, occurrences, n as int, *config),
        ));
    }
}

/// The warnings of the open documents.
fn all_diagnostics(groups: &Vec<NavGroup>, open: &Vec<&SourceFile>) -> (diagnostics: Vec<
    Vec<Diagnostic>,
>)
    ensures
        diagnostics@.len() == open@.len(),
        forall|d: int|
            0 <= d < open@.len() ==> diagnostic_values((#[trigger] diagnostics@[d])@)
                == warnings_for(
                crate::navigation::nav_values(groups@),
                groups@.len() as int,
                open@[d].path@,
            ),
{
    let mut diagnostics: Vec<Vec<Diagnostic>> = Vec::new();
    let mut d: usize = 0;
    while d < open.len()
        invariant
            d <= open@.len(),
            diagnostics@.len() == d,
            forall|k: int|
                0 <= k < d ==> diagnostic_values((#[trigger] diagnostics@[k])@) == warnings_for(
                    crate::navigation::nav_values(groups@),
                    groups@.len() as int,
                    open@[k].path@,
                ),
        decreases open@.len() - d,
    {
        diagnostics.push(diagnostics_for(groups, open[d].path.as_str()));
        d = d + 1;
    }
    diagnostics
}

/// What is found about the groups that concern an open document.
pub fn analyze_groups(
    files: &[&SourceFile],
    open: &Vec<&SourceFile>,
    groups: Vec<CloneGroup>,
    config: &Config,
) -> (analysis: Analysis)
    requires
        crate::matching::files_wf(files@),
        crate::server::groups_occur(files@, crate::cluster::group_views(groups@)),
    ensures
        is_analysis(
            analysis,
            files@,
            open@,
            crate::cluster::group_views(groups@).filter(concerns_open(files@, open@)),
            *config,
        ),
{
    broadcast use vstd::std_specs::hash::group_hash_axioms;

    let ghost views = crate::cluster::group_views(groups@);
    let ghost pred = concerns_open(files@, open@);
    let ghost to_nav_view = |group: (Seq<Occurrence>, int, CloneType)| nav_group(files@, group);
    let mut nav: Vec<NavGroup> = Vec::new();
    let mut signatures: HashSet<u64> = HashSet::new();
    let count: usize = groups.len();
    let mut n: usize = 0;
    proof {
        assert(views.take(0) =~= Seq::empty());
        crate::sort::lemma_filter_none(views.take(0), pred);
        assert(crate::navigation::nav_values(nav@) =~= views.take(0).filter(pred).map_values(
            to_nav_view,
        ));
        assert(signatures@ =~= group_signatures(
            files@,
            views.take(0).filter(pred),
            0,
            *config,
        ));
    }
    while n < count
        invariant
            crate::matching::files_wf(files@),
            crate::server::groups_occur(files@, views),
            views == crate::cluster::group_views(groups@),
            pred == concerns_open(files@, open@),
            to_nav_view == |group: (Seq<Occurrence>, int, CloneType)| nav_group(files@, group),
            count == groups@.len(),
            n <= count,
            crate::navigation::nav_values(nav@) == views.take(n as int).filter(pred).map_values(
                to_nav_view,
            ),
            signatures@ == group_signatures(
                files@,
                views.take(n as int).filter(pred),
                views.take(n as int).filter(pred).len() as int,
                *config,
            ),
        decreases count - n,
    {
        let group = &groups[n];
        let ghost shorter = views.take(n as int).filter(pred);
        let ghost view = views[n as int];
        proof {
            assert(view == crate::cluster::group_view(*group));
            assert(crate::cluster::all_occur(files@, views[n as int].0));
            assert(views.take(n + 1) =~= views.take(n as int).push(view));
            crate::sort::lemma_filter_push(views.take(n as int), view, pred);
        }
        if group_concerns_open(files, open, group) {
            let ghost nav_before = crate::navigation::nav_values(nav@);
            add_group_signatures(&mut signatures, files, group, config);
            nav.push(to_nav(files, group));
            proof {
                let longer = shorter.push(view);
                assert(views.take(n + 1).filter(pred) == longer);
                assert(crate::navigation::nav_values(nav@) =~= nav_before.push(
                    nav_group(files@, view),
                ));
                assert(longer.map_values(to_nav_view) =~= shorter.map_values(to_nav_view).push(
                    nav_group(files@, view),
                ));
                lemma_group_signatures_prefix(files@, shorter, longer, shorter.len() as int, *config);
            }
        }
        n = n + 1;
    }
    assert(views.take(n as int) =~= views);
    let diagnostics = all_diagnostics(&nav, open);
    assert(crate::navigation::nav_values(nav@).len() == nav@.len());
    Analysis { groups: nav, signatures, diagnostics }
}

proof fn lemma_group_signatures_prefix(
    files: Seq<&SourceFile>,
    a: Seq<(Seq<Occurrence>, int, CloneType)>,
    b: Seq<(Seq<Occurrence>, int, CloneType)>,
    n: int,
    config: Config,
)
    requires
        0 <= n <= a.len() <= b.len(),
        forall|i: int| 0 <= i < a.len() ==> #[trigger] a[i] == b[i],
    ensures
        group_signatures(files, a, n, config) == group_signatures(files, b, n, config),
    decreases n,
{
    if n > 0 {
        lemma_group_signatures_prefix(files, a, b, n - 1, config);
        assert(a[n - 1] == b[n - 1]);
    }
}

/// Analyzes the open documents together with the other files of the workspace. The detection
/// starts from the windows of the clones reported last, whose signatures are `previous`, and from
/// those that have changed since.
pub fn analyze(
    index: &SourceIndex,
    open: &Vec<&SourceFile>,
    pending: &PendingChanges,
    previous: HashSet<u64>,
    config: &Config,
) -> (analysis: Analysis)
    requires
        index.wf(),
        forall|i: int| 0 <= i < open@.len() ==> crate::index::file_ready(*#[trigger] open@[i]),
        index.content().len() + open@.len() <= u32::MAX,
    ensures
        ({
            let files = analyzed_files(index.content(), open@);
            let allowed = previous@.union(
                touched_signatures(
                    index.content(),
                    open@,
                    pending.notes(),
                    pending.notes().len() as int,
                    *config,
                ),
            );
            is_analysis(
                analysis,
                files,
                open@,
                shown_groups(files, open@, allowed, *config),
                *config,
            )
        }),
{
    proof {
        assert forall|i: int| 0 <= i < open@.len() implies (#[trigger] open@[i]).wf()
            && crate::spans::marks_wf(open@[i].tokens@) by {
            assert(crate::index::file_ready(*open@[i]));
        }
    }
    let files = files_to_analyze(index, open);
    let allowed = allowed_signatures(previous, index, open, pending, config);
    let groups = detect_filtered(files.as_slice(), config, Some(&allowed));
    proof {
        assert(crate::matching::files_wf(files@));
        crate::server::lemma_findings_occur(
            files@,
            crate::cluster::group_views(groups@),
            *config,
        );
    }
    analyze_groups(files.as_slice(), open, groups, config)
}

/// The language in which an opened document is analyzed: the one of its name, where it lies in the
/// workspace and is not too large.
pub open spec fn opened_language(
    path: Seq<char>,
    len: int,
    root: Seq<char>,
    max_file_bytes: u64,
) -> Option<LanguageId> {
    match crate::language::path_language(path) {
        Some(language) => if crate::paths::relative_to(path, root) is Some && len
            <= max_file_bytes {
            Some(language)
        } else {
            None
        },
        None => None,
    }
}

/// Whether an opened document is analyzed, and in which language.
pub fn open_document(path: &str, text: &str, root: &str, max_file_bytes: u64) -> (language: Option<
    LanguageId,
>)
    ensures
        language == opened_language(
            path@,
            encode_utf8(text@).len() as int,
            root@,
            max_file_bytes,
        ),
{
    match LanguageId::from_path(path) {
        Some(language) => if is_within(path, root) && text.as_bytes().len() as u64
            <= max_file_bytes {
            Some(language)
        } else {
            None
        },
        None => None,
    }
}

/// The text after the first `n` edits.
pub open spec fn edited_text(text: Seq<char>, changes: Seq<TextChange>, n: int) -> Seq<char>
    decreases n,
{
    if n <= 0 {
        text
    } else {
        crate::positions::changed_text(edited_text(text, changes, n - 1), changes[n - 1])
    }
}

/// The byte ranges that the first `n` edits touch.
pub open spec fn edited_regions(text: Seq<char>, changes: Seq<TextChange>, n: int) -> Seq<
    (usize, usize),
>
    decreases n,
{
    if n <= 0 {
        Seq::empty()
    } else {
        crate::positions::changed_regions(
            edited_text(text, changes, n - 1),
            changes[n - 1],
            edited_regions(text, changes, n - 1),
        )
    }
}

/// Every text on the way has a length that can be counted.
pub open spec fn edits_fit(text: Seq<char>, changes: Seq<TextChange>) -> bool {
    forall|n: int|
        0 <= n < changes.len() ==> encode_utf8(#[trigger] edited_text(text, changes, n)).len()
            + encode_utf8(changes[n].text@).len() <= usize::MAX
}

/// Applies edits one after the other.
pub fn edit_document(text: String, changes: &Vec<TextChange>) -> (result: (
    String,
    Vec<(usize, usize)>,
))
    requires
        edits_fit(text@, changes@),
    ensures
        result.0@ == edited_text(text@, changes@, changes@.len() as int),
        result.1@ == edited_regions(text@, changes@, changes@.len() as int),
{
    let ghost before = text@;
    let mut text = text;
    let mut regions: Vec<(usize, usize)> = Vec::new();
    let mut n: usize = 0;
    while n < changes.len()
        invariant
            edits_fit(before, changes@),
            n <= changes@.len(),
            text@ == edited_text(before, changes@, n as int),
            regions@ == edited_regions(before, changes@, n as int),
        decreases changes@.len() - n,
    {
        apply_change(&mut text, &changes[n], &mut regions);
        n = n + 1;
    }
    (text, regions)
}

/// Tokenizes the text of an open document. Nothing comes of a text that is too long, whose grammar
/// does not load, or that has too many tokens.
pub fn document_file(path: String, text: String, tables: &KindTables) -> (file: Option<SourceFile>)
    requires
        tables.wf(),
    ensures
        match file {
            Some(file) => is_document(file, path@, text@, tables.language()),
            None => may_be_unreadable(text@, tables.language()),
        },
{
    if length_fits(text.as_str().as_bytes().len()) {
        parse_source(path, text, None, 0, tables)
    } else {
        None
    }
}

/// The file is an open document with this text.
pub open spec fn is_document(
    file: SourceFile,
    path: Seq<char>,
    text: Seq<char>,
    language: LanguageId,
) -> bool {
    &&& crate::index::text_fits(text)
    &&& crate::syntax::grammar_loads(language)
    &&& crate::index::is_source(file, path, language, text, None, 0)
}

/// A text is too long, its grammar does not load, or it can have too many tokens.
pub open spec fn may_be_unreadable(text: Seq<char>, language: LanguageId) -> bool {
    ||| !crate::index::text_fits(text)
    ||| !crate::syntax::grammar_loads(language)
    ||| crate::index::may_overflow(text, language)
}

/// What becomes of an open document that is edited.
pub enum DocumentUpdate {
    /// It is too large now, and is dropped.
    Oversized,
    /// It has no tokens now, and stays as it was.
    Unreadable,
    /// It is this file now, and these byte ranges of it have changed.
    Edited(SourceFile, Vec<(usize, usize)>),
}

/// Edits an open document whose text was `text`.
pub fn update_document(
    path: String,
    text: String,
    changes: &Vec<TextChange>,
    max_file_bytes: u64,
    tables: &KindTables,
) -> (update: DocumentUpdate)
    requires
        tables.wf(),
        edits_fit(text@, changes@),
    ensures
        ({
            let edited = edited_text(text@, changes@, changes@.len() as int);
            let oversized = encode_utf8(edited).len() > max_file_bytes;
            match update {
                DocumentUpdate::Oversized => oversized,
                DocumentUpdate::Unreadable => !oversized && may_be_unreadable(
                    edited,
                    tables.language(),
                ),
                DocumentUpdate::Edited(file, regions) => {
                    &&& !oversized
                    &&& is_document(file, path@, edited, tables.language())
                    &&& regions@ == edited_regions(text@, changes@, changes@.len() as int)
                },
            }
        }),
{
    let (edited, regions) = edit_document(text, changes);
    if edited.as_str().as_bytes().len() as u64 > max_file_bytes {
        return DocumentUpdate::Oversized;
    }
    match document_file(path, edited, tables) {
        Some(file) => DocumentUpdate::Edited(file, regions),
        None => DocumentUpdate::Unreadable,
    }
}

/// What is noted of a document once byte ranges of it have changed.
pub open spec fn with_ranges(noted: Option<Change>, ranges: Seq<(usize, usize)>) -> Option<Change> {
    if ranges.len() == 0 {
        noted
    } else {
        Some(
            match noted {
                Some(Change::Whole) => Change::Whole,
                Some(Change::Bytes(earlier)) => Change::Bytes(earlier + ranges),
                None => Change::Bytes(ranges),
            },
        )
    }
}

/// Notes that byte ranges of a document have changed.
pub fn note_ranges(pending: &mut PendingChanges, path: &str, ranges: &Vec<(usize, usize)>)
    requires
        old(pending).wf(),
    ensures
        final(pending).wf(),
        forall|other: Seq<char>| #[trigger]
            final(pending).region_of(other) == if other == path@ {
                with_ranges(old(pending).region_of(other), ranges@)
            } else {
                old(pending).region_of(other)
            },
{
    let ghost before = *pending;
    let mut n: usize = 0;
    assert(ranges@.take(0) =~= Seq::empty());
    while n < ranges.len()
        invariant
            n <= ranges@.len(),
            pending.wf(),
            forall|other: Seq<char>| #[trigger]
                pending.region_of(other) == if other == path@ {
                    with_ranges(before.region_of(other), ranges@.take(n as int))
                } else {
                    before.region_of(other)
                },
        decreases ranges@.len() - n,
    {
        let (start, end) = ranges[n];
        pending.mark_bytes(path.to_owned(), start, end);
        proof {
            let shorter = ranges@.take(n as int);
            let longer = ranges@.take(n + 1);
            assert(longer =~= shorter.push((start, end)));
            if let Some(Change::Bytes(earlier)) = before.region_of(path@) {
                assert(earlier + longer =~= (earlier + shorter).push((start, end)));
                assert(earlier + Seq::<(usize, usize)>::empty() =~= earlier);
            }
            if n == 0 {
                assert(shorter =~= Seq::empty());
                assert(longer =~= seq![(start, end)]);
                if let Some(Change::Bytes(earlier)) = before.region_of(path@) {
                    assert(earlier.push((start, end)) =~= earlier + longer);
                }
            }
        }
        n = n + 1;
    }
    assert(ranges@.take(n as int) =~= ranges@);
}

/// The path is one of these.
pub open spec fn is_listed(paths: Seq<String>, path: Seq<char>) -> bool {
    exists|i: int| 0 <= i < paths.len() && (#[trigger] paths[i])@ == path
}

/// Notes files that have changed on disk, but for those that are open: of them the editor knows
/// better.
pub fn note_external(
    pending: &mut PendingChanges,
    changed: &Vec<String>,
    open: &Vec<&SourceFile>,
)
    requires
        old(pending).wf(),
    ensures
        final(pending).wf(),
        forall|path: Seq<char>| #[trigger]
            final(pending).region_of(path) == if is_listed(changed@, path) && !is_open(
                open@,
                path,
            ) {
                Some(Change::Whole)
            } else {
                old(pending).region_of(path)
            },
{
    let ghost before = *pending;
    let mut n: usize = 0;
    while n < changed.len()
        invariant
            n <= changed@.len(),
            pending.wf(),
            forall|path: Seq<char>| #[trigger]
                pending.region_of(path) == if is_listed(changed@.take(n as int), path) && !is_open(
                    open@,
                    path,
                ) {
                    Some(Change::Whole)
                } else {
                    before.region_of(path)
                },
        decreases changed@.len() - n,
    {
        if !is_open_path(open, changed[n].as_str()) {
            pending.mark_whole(changed[n].as_str().to_owned());
        }
        proof {
            let shorter = changed@.take(n as int);
            let longer = changed@.take(n + 1);
            assert forall|path: Seq<char>| #[trigger]
                is_listed(longer, path) == (is_listed(shorter, path) || changed@[n as int]@
                    == path) by {
                if is_listed(shorter, path) {
                    let i = choose|i: int| 0 <= i < shorter.len() && (#[trigger] shorter[i])@ == path;
                    assert(longer[i]@ == path);
                }
                if changed@[n as int]@ == path {
                    assert(longer[n as int]@ == path);
                }
                if is_listed(longer, path) {
                    let i = choose|i: int| 0 <= i < longer.len() && (#[trigger] longer[i])@ == path;
                    if i < n {
                        assert(shorter[i]@ == path);
                    }
                }
            }
        }
        n = n + 1;
    }
    assert(changed@.take(n as int) =~= changed@);
}

/// When analyses run: one per generation of changes, once the changes have settled.
pub struct Schedule {
    analyzed: Option<u64>,
    seen: Option<u64>,
}

impl Schedule {
    /// The generation that was analyzed last.
    pub closed spec fn last(&self) -> Option<u64> {
        self.analyzed
    }

    /// The generation that was there before the pause.
    pub closed spec fn paused_at(&self) -> Option<u64> {
        self.seen
    }

    /// Nothing has been analyzed yet.
    pub fn new() -> (schedule: Self)
        ensures
            schedule.last() is None,
            schedule.paused_at() is None,
    {
        Schedule { analyzed: None, seen: None }
    }

    /// Whether the changes have settled: a pause has gone by, and the generation is the one that
    /// was there before it. Otherwise another pause is due, and the generation is remembered.
    pub fn settled(&mut self, now: u64) -> (settled: bool)
        ensures
            settled == (old(self).paused_at() == Some(now)),
            final(self).paused_at() == (if settled {
                None
            } else {
                Some(now)
            }),
            final(self).last() == old(self).last(),
    {
        let settled: bool = match self.seen {
            Some(seen) => seen == now,
            None => false,
        };
        self.seen = if settled {
            None
        } else {
            Some(now)
        };
        settled
    }

    /// Whether a generation has still to be analyzed.
    pub fn is_due(&self, generation: u64) -> (due: bool)
        ensures
            due == (self.last() != Some(generation)),
    {
        match self.analyzed {
            Some(analyzed) => analyzed != generation,
            None => true,
        }
    }

    /// Takes note of an analysis that has ended. Its outcome is to be shown where there is one and
    /// nothing has changed since it began; where something has, the analysis does not count.
    pub fn finish(&mut self, generation: u64, now: u64, has_outcome: bool) -> (show: bool)
        ensures
            show == (has_outcome && now == generation),
            final(self).paused_at() == old(self).paused_at(),
            final(self).last() == (if has_outcome && now != generation {
                old(self).last()
            } else {
                Some(generation)
            }),
    {
        if has_outcome && now != generation {
            return false;
        }
        self.analyzed = Some(generation);
        has_outcome
    }
}

} // verus!
