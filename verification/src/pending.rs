//! What has changed in open documents since the last analysis.
use vstd::prelude::*;

use crate::text::str_equal;

verus! {

/// What has changed in a document.
#[derive(Debug, Clone, PartialEq)]
pub enum ChangedRegion {
    /// All of it.
    Whole,
    /// These byte ranges.
    Bytes(Vec<(usize, usize)>),
}

/// What has changed in a document, as a value.
pub enum Change {
    Whole,
    Bytes(Seq<(usize, usize)>),
}

impl ChangedRegion {
    /// What has changed.
    pub open spec fn change(&self) -> Change {
        match self {
            ChangedRegion::Whole => Change::Whole,
            ChangedRegion::Bytes(ranges) => Change::Bytes(ranges@),
        }
    }
}

fn same_ranges(a: &Vec<(usize, usize)>, b: &Vec<(usize, usize)>) -> (same: bool)
    ensures
        same == (a@ == b@),
{
    if a.len() != b.len() {
        return false;
    }
    let mut i: usize = 0;
    while i < a.len()
        invariant
            a@.len() == b@.len(),
            i <= a@.len(),
            forall|k: int| 0 <= k < i ==> a@[k] == b@[k],
        decreases a@.len() - i,
    {
        if a[i].0 != b[i].0 || a[i].1 != b[i].1 {
            assert(a@[i as int] != b@[i as int]);
            return false;
        }
        assert(a@[i as int] == b@[i as int]);
        i = i + 1;
    }
    assert(a@ =~= b@);
    true
}

fn same_change(a: &ChangedRegion, b: &ChangedRegion) -> (same: bool)
    ensures
        same == (a.change() == b.change()),
{
    match (a, b) {
        (ChangedRegion::Whole, ChangedRegion::Whole) => true,
        (ChangedRegion::Bytes(a), ChangedRegion::Bytes(b)) => same_ranges(a, b),
        _ => false,
    }
}

/// What is noted of a path, from the `from`-th note on.
pub open spec fn noted(
    notes: Seq<(String, ChangedRegion)>,
    path: Seq<char>,
    from: int,
) -> Option<Change>
    decreases notes.len() - from,
{
    if from >= notes.len() {
        None
    } else if notes[from].0@ == path {
        Some(notes[from].1.change())
    } else {
        noted(notes, path, from + 1)
    }
}

/// Changes that have not been analyzed yet, by path.
#[derive(Clone)]
pub struct PendingChanges {
    changed: Vec<(String, ChangedRegion)>,
}

proof fn lemma_noted_at(notes: Seq<(String, ChangedRegion)>, path: Seq<char>, from: int, at: int)
    requires
        0 <= from <= at < notes.len(),
        notes[at].0@ == path,
        forall|i: int| from <= i < at ==> (#[trigger] notes[i]).0@ != path,
    ensures
        noted(notes, path, from) == Some(notes[at].1.change()),
    decreases at - from,
{
    if from < at {
        assert(notes[from].0@ != path);
        lemma_noted_at(notes, path, from + 1, at);
    }
}

proof fn lemma_noted_none(notes: Seq<(String, ChangedRegion)>, path: Seq<char>, from: int)
    requires
        0 <= from,
        forall|i: int| from <= i < notes.len() ==> (#[trigger] notes[i]).0@ != path,
    ensures
        noted(notes, path, from) is None,
    decreases notes.len() - from,
{
    if from < notes.len() {
        assert(notes[from].0@ != path);
        lemma_noted_none(notes, path, from + 1);
    }
}

/// No path is noted twice.
pub open spec fn notes_differ(notes: Seq<(String, ChangedRegion)>) -> bool {
    forall|i: int, j: int|
        0 <= i < j < notes.len() ==> (#[trigger] notes[i]).0@ != (#[trigger] notes[j]).0@
}

/// Where a path is noted.
proof fn lemma_noted(notes: Seq<(String, ChangedRegion)>, path: Seq<char>)
    requires
        notes_differ(notes),
    ensures
        forall|i: int|
            0 <= i < notes.len() && (#[trigger] notes[i]).0@ == path ==> noted(notes, path, 0)
                == Some(notes[i].1.change()),
        (forall|i: int| 0 <= i < notes.len() ==> (#[trigger] notes[i]).0@ != path) ==> noted(
            notes,
            path,
            0,
        ) is None,
{
    assert forall|i: int| 0 <= i < notes.len() && (#[trigger] notes[i]).0@ == path implies noted(
        notes,
        path,
        0,
    ) == Some(notes[i].1.change()) by {
        assert forall|j: int| 0 <= j < i implies (#[trigger] notes[j]).0@ != path by {
            assert(notes[j].0@ != notes[i].0@);
        }
        lemma_noted_at(notes, path, 0, i);
    }
    if forall|i: int| 0 <= i < notes.len() ==> (#[trigger] notes[i]).0@ != path {
        lemma_noted_none(notes, path, 0);
    }
}

/// Notes that agree on where a path is noted, and as what, agree on the path.
proof fn lemma_same_note(
    a: Seq<(String, ChangedRegion)>,
    b: Seq<(String, ChangedRegion)>,
    path: Seq<char>,
)
    requires
        notes_differ(a),
        notes_differ(b),
        forall|i: int|
            0 <= i < a.len() && (#[trigger] a[i]).0@ == path ==> exists|j: int|
                0 <= j < b.len() && (#[trigger] b[j]).0@ == path && b[j].1.change()
                    == a[i].1.change(),
        forall|j: int|
            0 <= j < b.len() && (#[trigger] b[j]).0@ == path ==> exists|i: int|
                0 <= i < a.len() && (#[trigger] a[i]).0@ == path,
    ensures
        noted(a, path, 0) == noted(b, path, 0),
{
    lemma_noted(a, path);
    lemma_noted(b, path);
    if exists|i: int| 0 <= i < a.len() && (#[trigger] a[i]).0@ == path {
        let i = choose|i: int| 0 <= i < a.len() && (#[trigger] a[i]).0@ == path;
        let j = choose|j: int|
            0 <= j < b.len() && (#[trigger] b[j]).0@ == path && b[j].1.change() == a[i].1.change();
        assert(b[j].0@ == path);
    } else {
        assert forall|j: int| 0 <= j < b.len() implies (#[trigger] b[j]).0@ != path by {}
    }
}

impl PendingChanges {
    /// The notes, in no particular order.
    pub closed spec fn notes(&self) -> Seq<(String, ChangedRegion)> {
        self.changed@
    }

    /// What is noted of a path.
    pub open spec fn region_of(&self, path: Seq<char>) -> Option<Change> {
        noted(self.notes(), path, 0)
    }

    /// No path is noted twice.
    pub open spec fn wf(&self) -> bool {
        notes_differ(self.notes())
    }

    /// The notes.
    pub fn entries(&self) -> (entries: &Vec<(String, ChangedRegion)>)
        ensures
            entries@ == self.notes(),
    {
        &self.changed
    }

    /// No changes.
    pub fn new() -> (pending: Self)
        ensures
            pending.wf(),
            pending.notes() == Seq::<(String, ChangedRegion)>::empty(),
            forall|path: Seq<char>| #[trigger] pending.region_of(path) is None,
    {
        PendingChanges { changed: Vec::new() }
    }

    fn position(&self, path: &str) -> (position: Option<usize>)
        ensures
            match position {
                Some(at) => at < self.notes().len() && self.notes()[at as int].0@ == path@,
                None => forall|i: int|
                    0 <= i < self.notes().len() ==> (#[trigger] self.notes()[i]).0@ != path@,
            },
    {
        let mut i: usize = 0;
        while i < self.changed.len()
            invariant
                i <= self.changed@.len(),
                forall|k: int| 0 <= k < i ==> (#[trigger] self.changed@[k]).0@ != path@,
            decreases self.changed@.len() - i,
        {
            if str_equal(self.changed[i].0.as_str(), path) {
                return Some(i);
            }
            i = i + 1;
        }
        None
    }

    /// What is noted of a path.
    pub fn get(&self, path: &str) -> (region: Option<&ChangedRegion>)
        requires
            self.wf(),
        ensures
            match region {
                Some(region) => self.region_of(path@) == Some(region.change()),
                None => self.region_of(path@) is None,
            },
    {
        proof {
            lemma_noted(self.changed@, path@);
        }
        match self.position(path) {
            Some(at) => Some(&self.changed[at].1),
            None => None,
        }
    }

    /// Whether nothing is noted.
    pub fn is_empty(&self) -> (empty: bool)
        requires
            self.wf(),
        ensures
            empty == (self.notes().len() == 0),
            empty == (forall|path: Seq<char>| #[trigger] self.region_of(path) is None),
    {
        proof {
            if self.changed@.len() > 0 {
                let path = self.changed@[0].0@;
                lemma_noted(self.changed@, path);
                assert(self.region_of(path) is Some);
            }
        }
        self.changed.len() == 0
    }

    /// Notes that a whole document has changed.
    pub fn mark_whole(&mut self, path: String)
        requires
            old(self).wf(),
        ensures
            final(self).wf(),
            forall|other: Seq<char>| #[trigger]
                final(self).region_of(other) == if other == path@ {
                    Some(Change::Whole)
                } else {
                    old(self).region_of(other)
                },
    {
        let ghost before = self.changed@;
        let ghost name = path@;
        match self.position(path.as_str()) {
            Some(at) => {
                self.changed.set(at, (path, ChangedRegion::Whole));
                proof {
                    let after = self.changed@;
                    assert forall|i: int, j: int| 0 <= i < j < after.len() implies (
                    #[trigger] after[i]).0@ != (#[trigger] after[j]).0@ by {
                        assert(before[i].0@ != before[j].0@);
                    }
                    assert forall|other: Seq<char>| #[trigger] self.region_of(other) == if other
                        == name {
                        Some(Change::Whole)
                    } else {
                        noted(before, other, 0)
                    } by {
                        lemma_noted(after, other);
                        if other == name {
                            assert(after[at as int].0@ == name);
                        } else {
                            lemma_unchanged_note(before, after, at as int, other);
                        }
                    }
                }
            },
            None => {
                self.changed.push((path, ChangedRegion::Whole));
                proof {
                    assert(self.changed@.drop_last() =~= before);
                    lemma_pushed_note(before, self.changed@, name);
                }
            },
        }
    }

    /// Notes that a byte range of a document has changed. Where the whole document has, that
    /// stands.
    pub fn mark_bytes(&mut self, path: String, start: usize, end: usize)
        requires
            old(self).wf(),
        ensures
            final(self).wf(),
            forall|other: Seq<char>| #[trigger]
                final(self).region_of(other) == if other == path@ {
                    Some(
                        match old(self).region_of(path@) {
                            Some(Change::Whole) => Change::Whole,
                            Some(Change::Bytes(ranges)) => Change::Bytes(ranges.push((start, end))),
                            None => Change::Bytes(seq![(start, end)]),
                        },
                    )
                } else {
                    old(self).region_of(other)
                },
    {
        let ghost before = self.changed@;
        let ghost name = path@;
        proof {
            lemma_noted(before, name);
        }
        match self.position(path.as_str()) {
            Some(at) => {
                let (kept, region) = self.changed.swap_remove(at);
                let region = match region {
                    ChangedRegion::Whole => ChangedRegion::Whole,
                    ChangedRegion::Bytes(ranges) => {
                        let mut ranges = ranges;
                        ranges.push((start, end));
                        ChangedRegion::Bytes(ranges)
                    },
                };
                let ghost between = self.changed@;
                self.changed.push((kept, region));
                proof {
                    assert(self.changed@.drop_last() =~= between);
                    lemma_swapped_notes(before, between, self.changed@, at as int, name);
                }
            },
            None => {
                let mut ranges: Vec<(usize, usize)> = Vec::new();
                ranges.push((start, end));
                assert(ranges@ =~= seq![(start, end)]);
                self.changed.push((path, ChangedRegion::Bytes(ranges)));
                proof {
                    assert(self.changed@.drop_last() =~= before);
                    lemma_pushed_note(before, self.changed@, name);
                }
            },
        }
    }
}

/// The notes among the first `n` that say something else than the consumed ones.
spec fn remaining(
    notes: Seq<(String, ChangedRegion)>,
    consumed: Seq<(String, ChangedRegion)>,
    n: int,
) -> Seq<(String, ChangedRegion)>
    decreases n,
{
    if n <= 0 {
        Seq::empty()
    } else if noted(consumed, notes[n - 1].0@, 0) == Some(notes[n - 1].1.change()) {
        remaining(notes, consumed, n - 1)
    } else {
        remaining(notes, consumed, n - 1).push(notes[n - 1])
    }
}

proof fn lemma_remaining(
    notes: Seq<(String, ChangedRegion)>,
    consumed: Seq<(String, ChangedRegion)>,
    n: int,
)
    requires
        0 <= n <= notes.len(),
        notes_differ(notes),
    ensures
        notes_differ(remaining(notes, consumed, n)),
        forall|k: int|
            0 <= k < remaining(notes, consumed, n).len() ==> exists|i: int|
                0 <= i < n && #[trigger] notes[i] == #[trigger] remaining(notes, consumed, n)[k]
                    && noted(consumed, notes[i].0@, 0) != Some(notes[i].1.change()),
        forall|i: int|
            0 <= i < n && noted(consumed, notes[i].0@, 0) != Some((#[trigger] notes[i]).1.change())
                ==> remaining(notes, consumed, n).contains(notes[i]),
    decreases n,
{
    if n > 0 {
        lemma_remaining(notes, consumed, n - 1);
        let shorter = remaining(notes, consumed, n - 1);
        let whole = remaining(notes, consumed, n);
        assert forall|k: int, l: int| 0 <= k < l < whole.len() implies (#[trigger] whole[k]).0@ != (
        #[trigger] whole[l]).0@ by {
            if l < shorter.len() {
                assert(shorter[k].0@ != shorter[l].0@);
            } else {
                let i = choose|i: int|
                    0 <= i < n - 1 && #[trigger] notes[i] == shorter[k] && noted(
                        consumed,
                        notes[i].0@,
                        0,
                    ) != Some(notes[i].1.change());
                assert(notes[i].0@ != notes[n - 1].0@);
            }
        }
        assert forall|k: int| 0 <= k < whole.len() implies exists|i: int|
            0 <= i < n && #[trigger] notes[i] == #[trigger] whole[k] && noted(
                consumed,
                notes[i].0@,
                0,
            ) != Some(notes[i].1.change()) by {
            if k < shorter.len() {
                let i = choose|i: int|
                    0 <= i < n - 1 && #[trigger] notes[i] == shorter[k] && noted(
                        consumed,
                        notes[i].0@,
                        0,
                    ) != Some(notes[i].1.change());
                assert(notes[i] == whole[k]);
            } else {
                assert(notes[n - 1] == whole[k]);
            }
        }
        assert forall|i: int|
            0 <= i < n && noted(consumed, notes[i].0@, 0) != Some(
                (#[trigger] notes[i]).1.change(),
            ) implies whole.contains(notes[i]) by {
            if i < n - 1 {
                assert(shorter.contains(notes[i]));
                let k = choose|k: int| 0 <= k < shorter.len() && shorter[k] == notes[i];
                assert(whole[k] == notes[i]);
            } else {
                assert(whole[whole.len() - 1] == notes[i]);
            }
        }
    }
}

impl PendingChanges {
    /// Takes off what has been analyzed: a note stays where it has changed since.
    pub fn release(&mut self, consumed: &PendingChanges)
        requires
            old(self).wf(),
            consumed.wf(),
        ensures
            final(self).wf(),
            forall|path: Seq<char>| #[trigger]
                final(self).region_of(path) == if old(self).region_of(path) == consumed.region_of(
                    path,
                ) {
                    None
                } else {
                    old(self).region_of(path)
                },
    {
        let ghost before = self.changed@;
        let ghost gone = consumed.changed@;
        let mut notes: Vec<(String, ChangedRegion)> = Vec::new();
        std::mem::swap(&mut notes, &mut self.changed);
        let mut kept: Vec<(String, ChangedRegion)> = Vec::new();
        for note in it: notes
            invariant
                consumed.wf(),
                gone == consumed.changed@,
                it.seq() == before,
                kept@ == remaining(before, gone, it.index() as int),
        {
            assert(note == before[it.index() as int]);
            let same: bool = match consumed.get(note.0.as_str()) {
                Some(region) => same_change(region, &note.1),
                None => false,
            };
            if !same {
                kept.push(note);
            }
        }
        self.changed = kept;
        proof {
            let after = self.changed@;
            lemma_remaining(before, gone, before.len() as int);
            assert forall|path: Seq<char>| #[trigger] self.region_of(path) == if noted(
                before,
                path,
                0,
            ) == noted(gone, path, 0) {
                None
            } else {
                noted(before, path, 0)
            } by {
                lemma_noted(before, path);
                lemma_noted(after, path);
                assert forall|k: int| 0 <= k < after.len() && (#[trigger] after[k]).0@ == path implies noted(
                    before,
                    path,
                    0,
                ) == Some(after[k].1.change()) && noted(gone, path, 0) != Some(
                    after[k].1.change(),
                ) by {
                    let i = choose|i: int|
                        0 <= i < before.len() && #[trigger] before[i] == after[k] && noted(
                            gone,
                            before[i].0@,
                            0,
                        ) != Some(before[i].1.change());
                    assert(before[i].0@ == path);
                }
                if exists|i: int| 0 <= i < before.len() && (#[trigger] before[i]).0@ == path {
                    let i = choose|i: int| 0 <= i < before.len() && (#[trigger] before[i]).0@ == path;
                    if noted(gone, path, 0) != Some(before[i].1.change()) {
                        assert(after.contains(before[i]));
                        let k = choose|k: int| 0 <= k < after.len() && after[k] == before[i];
                        assert(after[k].0@ == path);
                    }
                }
                if exists|k: int| 0 <= k < after.len() && (#[trigger] after[k]).0@ == path {
                    let k = choose|k: int| 0 <= k < after.len() && (#[trigger] after[k]).0@ == path;
                    assert(after[k].0@ == path);
                }
            }
        }
    }
}

proof fn lemma_unchanged_note(
    before: Seq<(String, ChangedRegion)>,
    after: Seq<(String, ChangedRegion)>,
    at: int,
    other: Seq<char>,
)
    requires
        notes_differ(before),
        notes_differ(after),
        before.len() == after.len(),
        0 <= at < before.len(),
        before[at].0@ == after[at].0@,
        before[at].0@ != other,
        forall|i: int| 0 <= i < before.len() && i != at ==> #[trigger] before[i] == after[i],
    ensures
        noted(after, other, 0) == noted(before, other, 0),
{
    lemma_noted(before, other);
    lemma_noted(after, other);
    if exists|i: int| 0 <= i < before.len() && (#[trigger] before[i]).0@ == other {
        let i = choose|i: int| 0 <= i < before.len() && (#[trigger] before[i]).0@ == other;
        assert(after[i] == before[i]);
    } else {
        assert forall|i: int| 0 <= i < after.len() implies (#[trigger] after[i]).0@ != other by {
            if i != at {
                assert(before[i] == after[i]);
            }
        }
    }
}

/// A note behind the others adds its path.
proof fn lemma_pushed_note(
    before: Seq<(String, ChangedRegion)>,
    after: Seq<(String, ChangedRegion)>,
    name: Seq<char>,
)
    requires
        notes_differ(before),
        after.len() == before.len() + 1,
        after.drop_last() == before,
        after.last().0@ == name,
        forall|i: int| 0 <= i < before.len() ==> (#[trigger] before[i]).0@ != name,
    ensures
        notes_differ(after),
        noted(before, name, 0) is None,
        forall|other: Seq<char>| #[trigger]
            noted(after, other, 0) == if other == name {
                Some(after.last().1.change())
            } else {
                noted(before, other, 0)
            },
{
    assert forall|i: int| 0 <= i < before.len() implies after[i] == #[trigger] before[i] by {
        assert(after.drop_last()[i] == after[i]);
    }
    assert forall|i: int, j: int| 0 <= i < j < after.len() implies (#[trigger] after[i]).0@ != (
    #[trigger] after[j]).0@ by {
        assert(after[i] == before[i]);
        if j < before.len() {
            assert(after[j] == before[j]);
        }
    }
    lemma_noted(before, name);
    assert forall|other: Seq<char>| #[trigger] noted(after, other, 0) == if other == name {
        Some(after.last().1.change())
    } else {
        noted(before, other, 0)
    } by {
        lemma_noted(after, other);
        lemma_noted(before, other);
        if other == name {
            assert(after[after.len() - 1].0@ == name);
        } else if exists|i: int| 0 <= i < before.len() && (#[trigger] before[i]).0@ == other {
            let i = choose|i: int| 0 <= i < before.len() && (#[trigger] before[i]).0@ == other;
            assert(after[i] == before[i]);
        } else {
            assert forall|i: int| 0 <= i < after.len() implies (#[trigger] after[i]).0@ != other by {
                if i < before.len() {
                    assert(after[i] == before[i]);
                }
            }
        }
    }
}

/// Moving a note to the end and rewriting it changes what is noted of its path alone.
proof fn lemma_swapped_notes(
    before: Seq<(String, ChangedRegion)>,
    between: Seq<(String, ChangedRegion)>,
    after: Seq<(String, ChangedRegion)>,
    at: int,
    name: Seq<char>,
)
    requires
        notes_differ(before),
        0 <= at < before.len(),
        before[at].0@ == name,
        between == before.update(at, before.last()).drop_last(),
        after.len() == between.len() + 1,
        after.drop_last() == between,
        after.last().0@ == name,
    ensures
        notes_differ(after),
        forall|other: Seq<char>| #[trigger]
            noted(after, other, 0) == if other == name {
                Some(after.last().1.change())
            } else {
                noted(before, other, 0)
            },
{
    let last = before.len() - 1;
    assert forall|i: int| 0 <= i < between.len() implies #[trigger] between[i] == (if i == at {
        before[last]
    } else {
        before[i]
    }) by {}
    assert(notes_differ(between)) by {
        assert forall|i: int, j: int| 0 <= i < j < between.len() implies (#[trigger] between[i]).0@
            != (#[trigger] between[j]).0@ by {
            if i == at {
                assert(before[j].0@ != before[last].0@);
            } else if j == at {
                assert(before[i].0@ != before[last].0@);
            } else {
                assert(before[i].0@ != before[j].0@);
            }
        }
    }
    assert forall|i: int| 0 <= i < between.len() implies (#[trigger] between[i]).0@ != name by {
        if i == at {
            assert(before[at].0@ != before[last].0@);
        } else if i < at {
            assert(before[i].0@ != before[at].0@);
        } else {
            assert(before[at].0@ != before[i].0@);
        }
    }
    lemma_pushed_note(between, after, name);
    assert forall|other: Seq<char>| #[trigger] noted(after, other, 0) == if other == name {
        Some(after.last().1.change())
    } else {
        noted(before, other, 0)
    } by {
        if other != name {
            assert(noted(between, other, 0) == noted(before, other, 0)) by {
                assert forall|i: int|
                    0 <= i < between.len() && (#[trigger] between[i]).0@ == other implies exists|j: int|
                    0 <= j < before.len() && (#[trigger] before[j]).0@ == other
                        && before[j].1.change() == between[i].1.change() by {
                    let j = if i == at {
                        last
                    } else {
                        i
                    };
                    assert(before[j] == between[i]);
                }
                assert forall|j: int|
                    0 <= j < before.len() && (#[trigger] before[j]).0@ == other implies exists|i: int|
                    0 <= i < between.len() && (#[trigger] between[i]).0@ == other by {
                    let i = if j == last {
                        at
                    } else {
                        j
                    };
                    assert(between[i] == before[j]);
                }
                lemma_same_note(between, before, other);
            }
        }
    }
}

} // verus!
