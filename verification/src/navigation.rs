//! From one occurrence of duplicated code to the others.
use vstd::prelude::*;

use crate::model::CloneType;
use crate::positions::{range_contains, Position, Range};
use crate::text::{push_number, push_text, str_equal, string_of};

verus! {

/// An occurrence as an editor finds it.
#[derive(Debug)]
pub struct NavOccurrence {
    pub path: String,
    pub range: Range,
}

/// A clone group as an editor finds it.
#[derive(Debug)]
pub struct NavGroup {
    pub token_count: usize,
    pub clone_type: CloneType,
    pub occurrences: Vec<NavOccurrence>,
}

/// A place in a file.
#[derive(Debug)]
pub struct Location {
    pub path: String,
    pub range: Range,
}

impl NavOccurrence {
    /// Path and range.
    pub open spec fn place(&self) -> (Seq<char>, Range) {
        (self.path@, self.range)
    }
}

impl Location {
    /// Path and range.
    pub open spec fn place(&self) -> (Seq<char>, Range) {
        (self.path@, self.range)
    }
}

/// The places of occurrences.
pub open spec fn places_of(occurrences: Seq<NavOccurrence>) -> Seq<(Seq<char>, Range)> {
    occurrences.map_values(|occurrence: NavOccurrence| occurrence.place())
}

impl NavGroup {
    /// Places, token count and type.
    pub open spec fn values(&self) -> (Seq<(Seq<char>, Range)>, int, CloneType) {
        (places_of(self.occurrences@), self.token_count as int, self.clone_type)
    }
}

/// The groups as values.
pub open spec fn nav_values(groups: Seq<NavGroup>) -> Seq<
    (Seq<(Seq<char>, Range)>, int, CloneType),
> {
    groups.map_values(|group: NavGroup| group.values())
}

/// The position in the file is at this place.
pub open spec fn is_at(place: (Seq<char>, Range), path: Seq<char>, position: Position) -> bool {
    &&& place.0 == path
    &&& crate::positions::not_after(place.1.start, position)
    &&& crate::positions::not_after(position, place.1.end)
}

/// The position is at one of the places.
pub open spec fn is_at_one(
    places: Seq<(Seq<char>, Range)>,
    path: Seq<char>,
    position: Position,
) -> bool {
    exists|i: int| 0 <= i < places.len() && is_at(#[trigger] places[i], path, position)
}

/// The list with a place behind it, unless it is there already.
pub open spec fn with_place(
    list: Seq<(Seq<char>, Range)>,
    place: (Seq<char>, Range),
) -> Seq<(Seq<char>, Range)> {
    if list.contains(place) {
        list
    } else {
        list.push(place)
    }
}

/// The list with the first `n` places behind it; without those at the position where only the
/// others are asked for.
pub open spec fn with_places(
    list: Seq<(Seq<char>, Range)>,
    places: Seq<(Seq<char>, Range)>,
    n: int,
    path: Seq<char>,
    position: Position,
    others_only: bool,
) -> Seq<(Seq<char>, Range)>
    decreases n,
{
    if n <= 0 {
        list
    } else {
        let before = with_places(list, places, n - 1, path, position, others_only);
        if others_only && is_at(places[n - 1], path, position) {
            before
        } else {
            with_place(before, places[n - 1])
        }
    }
}

/// The places of those of the first `n` groups that have an occurrence at the position.
pub open spec fn places_found(
    groups: Seq<(Seq<(Seq<char>, Range)>, int, CloneType)>,
    n: int,
    path: Seq<char>,
    position: Position,
    others_only: bool,
) -> Seq<(Seq<char>, Range)>
    decreases n,
{
    if n <= 0 {
        Seq::empty()
    } else {
        let before = places_found(groups, n - 1, path, position, others_only);
        let places = groups[n - 1].0;
        if is_at_one(places, path, position) {
            with_places(before, places, places.len() as int, path, position, others_only)
        } else {
            before
        }
    }
}

/// The places of locations.
pub open spec fn location_places(locations: Seq<Location>) -> Seq<(Seq<char>, Range)> {
    locations.map_values(|location: Location| location.place())
}

fn occurrence_is_at(occurrence: &NavOccurrence, path: &str, position: Position) -> (at: bool)
    ensures
        at == is_at(occurrence.place(), path@, position),
{
    str_equal(occurrence.path.as_str(), path) && range_contains(&occurrence.range, position)
}

fn group_is_at(group: &NavGroup, path: &str, position: Position) -> (at: bool)
    ensures
        at == is_at_one(group.values().0, path@, position),
{
    let ghost places = places_of(group.occurrences@);
    let mut i: usize = 0;
    while i < group.occurrences.len()
        invariant
            places == places_of(group.occurrences@),
            i <= places.len(),
            forall|k: int| 0 <= k < i ==> !is_at(#[trigger] places[k], path@, position),
        decreases places.len() - i,
    {
        assert(places[i as int] == group.occurrences@[i as int].place());
        if occurrence_is_at(&group.occurrences[i], path, position) {
            assert(is_at(places[i as int], path@, position));
            return true;
        }
        i = i + 1;
    }
    false
}

fn has_location(locations: &Vec<Location>, path: &str, range: Range) -> (has: bool)
    ensures
        has == location_places(locations@).contains((path@, range)),
{
    let ghost places = location_places(locations@);
    let mut i: usize = 0;
    while i < locations.len()
        invariant
            places == location_places(locations@),
            i <= places.len(),
            forall|k: int| 0 <= k < i ==> #[trigger] places[k] != (path@, range),
        decreases places.len() - i,
    {
        assert(places[i as int] == locations@[i as int].place());
        if str_equal(locations[i].path.as_str(), path) && locations[i].range == range {
            assert(places[i as int] == (path@, range));
            return true;
        }
        i = i + 1;
    }
    false
}

fn add_group(
    locations: &mut Vec<Location>,
    group: &NavGroup,
    path: &str,
    position: Position,
    others_only: bool,
)
    ensures
        location_places(final(locations)@) == with_places(
            location_places(old(locations)@),
            group.values().0,
            group.values().0.len() as int,
            path@,
            position,
            others_only,
        ),
{
    let ghost list = location_places(locations@);
    let ghost places = places_of(group.occurrences@);
    let mut n: usize = 0;
    while n < group.occurrences.len()
        invariant
            places == places_of(group.occurrences@),
            n <= places.len(),
            location_places(locations@) == with_places(
                list,
                places,
                n as int,
                path@,
                position,
                others_only,
            ),
        decreases places.len() - n,
    {
        let occurrence = &group.occurrences[n];
        assert(places[n as int] == occurrence.place());
        let here: bool = others_only && occurrence_is_at(occurrence, path, position);
        if !here && !has_location(locations, occurrence.path.as_str(), occurrence.range) {
            let ghost before = location_places(locations@);
            locations.push(
                Location { path: occurrence.path.clone(), range: occurrence.range },
            );
            assert(location_places(locations@) =~= before.push(places[n as int]));
        }
        n = n + 1;
    }
}

fn find_places(groups: &Vec<NavGroup>, path: &str, position: Position, others_only: bool) -> (found:
    Option<Vec<Location>>)
    ensures
        ({
            let places = places_found(
                nav_values(groups@),
                groups@.len() as int,
                path@,
                position,
                others_only,
            );
            match found {
                Some(locations) => location_places(locations@) == places && places.len() > 0,
                None => places.len() == 0,
            }
        }),
{
    let ghost values = nav_values(groups@);
    let mut locations: Vec<Location> = Vec::new();
    let mut n: usize = 0;
    assert(location_places(locations@) =~= Seq::empty());
    while n < groups.len()
        invariant
            values == nav_values(groups@),
            n <= groups@.len(),
            location_places(locations@) == places_found(
                values,
                n as int,
                path@,
                position,
                others_only,
            ),
        decreases groups@.len() - n,
    {
        assert(values[n as int] == groups@[n as int].values());
        if group_is_at(&groups[n], path, position) {
            add_group(&mut locations, &groups[n], path, position, others_only);
        }
        n = n + 1;
    }
    assert(location_places(locations@).len() == locations@.len());
    if locations.len() == 0 {
        None
    } else {
        Some(locations)
    }
}

/// The other occurrences of the code at a position.
pub fn goto_definition(groups: &Vec<NavGroup>, path: &str, position: Position) -> (found: Option<
    Vec<Location>,
>)
    ensures
        ({
            let places = places_found(
                nav_values(groups@),
                groups@.len() as int,
                path@,
                position,
                true,
            );
            match found {
                Some(locations) => location_places(locations@) == places && places.len() > 0,
                None => places.len() == 0,
            }
        }),
{
    find_places(groups, path, position, true)
}

/// All occurrences of the code at a position.
pub fn references_at(groups: &Vec<NavGroup>, path: &str, position: Position) -> (found: Option<
    Vec<Location>,
>)
    ensures
        ({
            let places = places_found(
                nav_values(groups@),
                groups@.len() as int,
                path@,
                position,
                false,
            );
            match found {
                Some(locations) => location_places(locations@) == places && places.len() > 0,
                None => places.len() == 0,
            }
        }),
{
    find_places(groups, path, position, false)
}

proof fn lemma_with_places(
    list: Seq<(Seq<char>, Range)>,
    places: Seq<(Seq<char>, Range)>,
    n: int,
    path: Seq<char>,
    position: Position,
    others_only: bool,
    place: (Seq<char>, Range),
)
    requires
        0 <= n <= places.len(),
    ensures
        with_places(list, places, n, path, position, others_only).contains(place)
            <==> list.contains(place) || exists|i: int|
            0 <= i < n && #[trigger] places[i] == place && !(others_only && is_at(
                place,
                path,
                position,
            )),
    decreases n,
{
    if n > 0 {
        lemma_with_places(list, places, n - 1, path, position, others_only, place);
        let before = with_places(list, places, n - 1, path, position, others_only);
        let whole = with_places(list, places, n, path, position, others_only);
        if before.contains(place) {
            let k = choose|k: int| 0 <= k < before.len() && before[k] == place;
            assert(whole[k] == place);
        }
        if places[n - 1] == place && !(others_only && is_at(place, path, position)) {
            assert(places[n - 1] == place);
            if !before.contains(place) {
                assert(whole[whole.len() - 1] == place);
            }
        }
        if whole.contains(place) && !before.contains(place) {
            let k = choose|k: int| 0 <= k < whole.len() && whole[k] == place;
            assert(k == before.len());
            assert(places[n - 1] == place);
        }
    }
}

/// A place is found exactly if it is an occurrence of a group that has an occurrence at the
/// position, and, where only the others are asked for, is not itself at the position.
pub proof fn found_places_are_occurrences(
    groups: Seq<(Seq<(Seq<char>, Range)>, int, CloneType)>,
    n: int,
    path: Seq<char>,
    position: Position,
    others_only: bool,
    place: (Seq<char>, Range),
)
    requires
        0 <= n <= groups.len(),
    ensures
        places_found(groups, n, path, position, others_only).contains(place) <==> exists|g: int|
            0 <= g < n && is_at_one((#[trigger] groups[g]).0, path, position)
                && groups[g].0.contains(place) && !(others_only && is_at(place, path, position)),
    decreases n,
{
    if n > 0 {
        found_places_are_occurrences(groups, n - 1, path, position, others_only, place);
        let before = places_found(groups, n - 1, path, position, others_only);
        let places = groups[n - 1].0;
        if is_at_one(places, path, position) {
            lemma_with_places(
                before,
                places,
                places.len() as int,
                path,
                position,
                others_only,
                place,
            );
            assert(groups[n - 1].0.contains(place) <==> exists|i: int|
                0 <= i < places.len() && #[trigger] places[i] == place);
        }
    }
}

/// No place is found twice.
pub proof fn found_places_differ(
    groups: Seq<(Seq<(Seq<char>, Range)>, int, CloneType)>,
    n: int,
    path: Seq<char>,
    position: Position,
    others_only: bool,
)
    requires
        0 <= n <= groups.len(),
    ensures
        places_found(groups, n, path, position, others_only).no_duplicates(),
    decreases n,
{
    if n > 0 {
        found_places_differ(groups, n - 1, path, position, others_only);
        let places = groups[n - 1].0;
        lemma_with_places_differ(
            places_found(groups, n - 1, path, position, others_only),
            places,
            places.len() as int,
            path,
            position,
            others_only,
        );
    }
}

proof fn lemma_with_places_differ(
    list: Seq<(Seq<char>, Range)>,
    places: Seq<(Seq<char>, Range)>,
    n: int,
    path: Seq<char>,
    position: Position,
    others_only: bool,
)
    requires
        list.no_duplicates(),
    ensures
        with_places(list, places, n, path, position, others_only).no_duplicates(),
    decreases n,
{
    if n > 0 {
        lemma_with_places_differ(list, places, n - 1, path, position, others_only);
    }
}

/// A place is not at the position.
pub open spec fn is_elsewhere(path: Seq<char>, position: Position) -> spec_fn(
    (Seq<char>, Range),
) -> bool {
    |place: (Seq<char>, Range)| !is_at(place, path, position)
}

proof fn lemma_with_others(
    list: Seq<(Seq<char>, Range)>,
    places: Seq<(Seq<char>, Range)>,
    n: int,
    path: Seq<char>,
    position: Position,
)
    ensures
        with_places(
            list.filter(is_elsewhere(path, position)),
            places,
            n,
            path,
            position,
            true,
        ) == with_places(list, places, n, path, position, false).filter(
            is_elsewhere(path, position),
        ),
    decreases n,
{
    if n > 0 {
        let pred = is_elsewhere(path, position);
        let place = places[n - 1];
        let before = with_places(list, places, n - 1, path, position, false);
        lemma_with_others(list, places, n - 1, path, position);
        crate::sort::lemma_filter_push(before, place, pred);
        if pred(place) {
            let others = before.filter(pred);
            if before.contains(place) {
                let i = choose|i: int| 0 <= i < before.len() && before[i] == place;
                Seq::lemma_filter_contains(before, pred, i);
            }
            if others.contains(place) {
                let i = choose|i: int| 0 <= i < others.len() && others[i] == place;
                crate::cluster::lemma_filter_member(before, pred, i);
            }
        }
    }
}

/// The other occurrences of the code at a position are all its occurrences but those at the
/// position, in the same order. There are none of either where no group has an occurrence there.
pub proof fn definitions_are_the_other_references(
    groups: Seq<(Seq<(Seq<char>, Range)>, int, CloneType)>,
    n: int,
    path: Seq<char>,
    position: Position,
)
    requires
        0 <= n <= groups.len(),
    ensures
        places_found(groups, n, path, position, true) == places_found(
            groups,
            n,
            path,
            position,
            false,
        ).filter(is_elsewhere(path, position)),
        places_found(groups, n, path, position, false).len() == 0 <==> forall|g: int|
            0 <= g < n ==> !is_at_one((#[trigger] groups[g]).0, path, position),
    decreases n,
{
    let pred = is_elsewhere(path, position);
    let all = places_found(groups, n, path, position, false);
    if n == 0 {
        crate::sort::lemma_filter_none(all, pred);
    } else {
        definitions_are_the_other_references(groups, n - 1, path, position);
        let places = groups[n - 1].0;
        if is_at_one(places, path, position) {
            let before = places_found(groups, n - 1, path, position, false);
            lemma_with_others(before, places, places.len() as int, path, position);
            let i = choose|i: int| 0 <= i < places.len() && is_at(#[trigger] places[i], path, position);
            found_places_are_occurrences(groups, n, path, position, false, places[i]);
            assert(groups[n - 1].0.contains(places[i]));
            assert(all.contains(places[i]));
        }
    }
}

/// The label of a clone type.
pub open spec fn label_of(clone_type: CloneType) -> Seq<char> {
    match clone_type {
        CloneType::Type1 => "type-1"@,
        CloneType::Type2 => "type-2"@,
    }
}

/// The label of a clone type.
pub fn clone_type_label(clone_type: CloneType) -> (label: &'static str)
    ensures
        label@ == label_of(clone_type),
{
    match clone_type {
        CloneType::Type1 => "type-1",
        CloneType::Type2 => "type-2",
    }
}

/// The first line of a hover text.
pub open spec fn hover_head(group: (Seq<(Seq<char>, Range)>, int, CloneType)) -> Seq<char> {
    "**Duplicated code** — "@ + crate::text::decimal(group.1 as nat) + " tokens, "@
        + crate::text::decimal(group.0.len()) + " occurrences ("@ + label_of(group.2) + ")\n\n"@
}

/// The line of a hover text for one place.
pub open spec fn hover_line(place: (Seq<char>, Range), path: Seq<char>) -> Seq<char> {
    "- "@ + (if place.0 == path {
        "(here) "@
    } else {
        ""@
    }) + place.0 + ":"@ + crate::text::decimal((place.1.start.line + 1) as nat) + "\n"@
}

/// The lines of a hover text for the first `n` places.
pub open spec fn hover_lines(places: Seq<(Seq<char>, Range)>, n: int, path: Seq<char>) -> Seq<char>
    decreases n,
{
    if n <= 0 {
        Seq::empty()
    } else {
        hover_lines(places, n - 1, path) + hover_line(places[n - 1], path)
    }
}

/// What is shown of the first group, from the `from`-th on, with an occurrence at the position.
pub open spec fn hover_text(
    groups: Seq<(Seq<(Seq<char>, Range)>, int, CloneType)>,
    from: int,
    path: Seq<char>,
    position: Position,
) -> Option<Seq<char>>
    decreases groups.len() - from,
{
    if from >= groups.len() {
        None
    } else if is_at_one(groups[from].0, path, position) {
        Some(
            hover_head(groups[from]) + hover_lines(
                groups[from].0,
                groups[from].0.len() as int,
                path,
            ),
        )
    } else {
        hover_text(groups, from + 1, path, position)
    }
}

fn describe(group: &NavGroup, path: &str) -> (text: String)
    ensures
        text@ == hover_head(group.values()) + hover_lines(
            group.values().0,
            group.values().0.len() as int,
            path@,
        ),
{
    let ghost places = places_of(group.occurrences@);
    let mut out: Vec<char> = Vec::new();
    push_text(&mut out, "**Duplicated code** — ");
    push_number(&mut out, group.token_count as u64);
    push_text(&mut out, " tokens, ");
    push_number(&mut out, group.occurrences.len() as u64);
    push_text(&mut out, " occurrences (");
    push_text(&mut out, clone_type_label(group.clone_type));
    push_text(&mut out, ")\n\n");
    let ghost head = hover_head(group.values());
    assert(out@ =~= head);
    let mut n: usize = 0;
    assert(out@ =~= head + hover_lines(places, 0, path@));
    while n < group.occurrences.len()
        invariant
            places == places_of(group.occurrences@),
            n <= places.len(),
            out@ == head + hover_lines(places, n as int, path@),
        decreases places.len() - n,
    {
        let occurrence = &group.occurrences[n];
        assert(places[n as int] == occurrence.place());
        let ghost before = out@;
        push_text(&mut out, "- ");
        if str_equal(occurrence.path.as_str(), path) {
            push_text(&mut out, "(here) ");
        } else {
            push_text(&mut out, "");
        }
        push_text(&mut out, occurrence.path.as_str());
        push_text(&mut out, ":");
        push_number(&mut out, occurrence.range.start.line as u64 + 1);
        push_text(&mut out, "\n");
        n = n + 1;
        assert(out@ =~= before + hover_line(places[n - 1], path@));
        assert(out@ =~= head + hover_lines(places, n as int, path@));
    }
    string_of(&out)
}

/// What is shown of the code at a position, if it is duplicated.
pub fn hover(groups: &Vec<NavGroup>, path: &str, position: Position) -> (text: Option<String>)
    ensures
        match text {
            Some(text) => hover_text(nav_values(groups@), 0, path@, position) == Some(text@),
            None => hover_text(nav_values(groups@), 0, path@, position) is None,
        },
{
    let ghost values = nav_values(groups@);
    let mut i: usize = 0;
    while i < groups.len()
        invariant
            values == nav_values(groups@),
            i <= groups@.len(),
            hover_text(values, i as int, path@, position) == hover_text(values, 0, path@, position),
        decreases groups@.len() - i,
    {
        assert(values[i as int] == groups@[i as int].values());
        if group_is_at(&groups[i], path, position) {
            return Some(describe(&groups[i], path));
        }
        i = i + 1;
    }
    None
}

} // verus!
