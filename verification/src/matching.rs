//! Growing seed matches into maximal matching spans.
use vstd::prelude::*;

use crate::bijection::Bijection;
use crate::encode::{FIXED_BITS, IDENTIFIER_BITS};
use crate::model::{Occurrence, SourceFile};
use crate::sort::sort_by_keys;

verus! {

/// Two windows with the same signature.
#[derive(Debug, Clone, Copy, PartialEq, Eq, Structural)]
pub struct Candidate {
    pub file_a: u32,
    pub file_b: u32,
    pub start_a: u32,
    pub start_b: u32,
}

/// Every file is well formed.
pub open spec fn files_wf(files: Seq<&SourceFile>) -> bool {
    forall|i: int| 0 <= i < files.len() ==> (#[trigger] files[i]).wf()
}

/// The token hashes of a file.
pub open spec fn hashes_in(files: Seq<&SourceFile>, file: u32) -> Seq<u64> {
    files[file as int].hashes@
}

/// The occurrence lies in one of the files.
pub open spec fn occurs(files: Seq<&SourceFile>, occurrence: Occurrence) -> bool {
    occurrence.file < files.len() && files[occurrence.file as int].holds(occurrence)
}

/// Both windows of the candidate lie in their files.
pub open spec fn candidate_fits(files: Seq<&SourceFile>, candidate: Candidate, window: int) -> bool {
    &&& candidate.file_a < files.len()
    &&& candidate.file_b < files.len()
    &&& candidate.start_a + window <= hashes_in(files, candidate.file_a).len()
    &&& candidate.start_b + window <= hashes_in(files, candidate.file_b).len()
}

/// The spans from `left` tokens before to `right` tokens after the two anchors are equal up to
/// renaming.
pub open spec fn spans_match(
    a: Seq<u64>,
    start_a: int,
    b: Seq<u64>,
    start_b: int,
    left: int,
    right: int,
    parameterize_literals: bool,
) -> bool {
    crate::encode::is_renaming(
        a.subrange(start_a - left, start_a + right),
        b.subrange(start_b - left, start_b + right),
        parameterize_literals,
    )
}

/// How far the match grows to the left, given that `left` tokens match and `right` follow.
pub open spec fn left_extent(
    a: Seq<u64>,
    start_a: int,
    b: Seq<u64>,
    start_b: int,
    left: int,
    right: int,
    parameterize_literals: bool,
) -> int
    decreases start_a - left,
{
    if start_a > left && start_b > left && spans_match(
        a,
        start_a,
        b,
        start_b,
        left + 1,
        right,
        parameterize_literals,
    ) {
        left_extent(a, start_a, b, start_b, left + 1, right, parameterize_literals)
    } else {
        left
    }
}

/// How far the match grows to the right, given that `right` tokens match and `left` precede.
pub open spec fn right_extent(
    a: Seq<u64>,
    start_a: int,
    b: Seq<u64>,
    start_b: int,
    left: int,
    right: int,
    parameterize_literals: bool,
) -> int
    decreases a.len() - start_a - right,
{
    if start_a + right < a.len() && start_b + right < b.len() && spans_match(
        a,
        start_a,
        b,
        start_b,
        left,
        right + 1,
        parameterize_literals,
    ) {
        right_extent(a, start_a, b, start_b, left, right + 1, parameterize_literals)
    } else {
        right
    }
}

/// The maximal match around a candidate, grown first to the left and then to the right; none if
/// the windows themselves do not match.
pub open spec fn extension(
    files: Seq<&SourceFile>,
    candidate: Candidate,
    window: int,
    parameterize_literals: bool,
) -> Option<(Occurrence, Occurrence)> {
    let a = hashes_in(files, candidate.file_a);
    let b = hashes_in(files, candidate.file_b);
    let start_a = candidate.start_a as int;
    let start_b = candidate.start_b as int;
    if !spans_match(a, start_a, b, start_b, 0, window, parameterize_literals) {
        None
    } else {
        let left = left_extent(a, start_a, b, start_b, 0, window, parameterize_literals);
        let right = right_extent(a, start_a, b, start_b, left, window, parameterize_literals);
        Some(
            (
                Occurrence {
                    file: candidate.file_a,
                    start: (start_a - left) as u32,
                    end: (start_a + right) as u32,
                },
                Occurrence {
                    file: candidate.file_b,
                    start: (start_b - left) as u32,
                    end: (start_b + right) as u32,
                },
            ),
        )
    }
}

/// `map` is the renaming from the parameters of `x` to those of `y`.
pub open spec fn tracks(
    map: Map<u64, u64>,
    x: Seq<u64>,
    y: Seq<u64>,
    parameterize_literals: bool,
) -> bool {
    &&& forall|i: int|
        0 <= i < x.len() && crate::encode::is_parameter(#[trigger] x[i], parameterize_literals)
            ==> map.dom().contains(x[i]) && map[x[i]] == y[i]
    &&& forall|k: u64| #[trigger]
        map.dom().contains(k) ==> exists|i: int|
            0 <= i < x.len() && #[trigger] x[i] == k && crate::encode::is_parameter(
                x[i],
                parameterize_literals,
            )
}

/// The pair may join the renaming: `h` has no other partner, nor has `g`.
pub open spec fn insertable(map: Map<u64, u64>, h: u64, g: u64) -> bool {
    if map.dom().contains(h) {
        map[h] == g
    } else {
        !map.contains_value(g)
    }
}

/// The two tokens agree under the renaming built so far.
pub open spec fn agrees_under(map: Map<u64, u64>, h: u64, g: u64, pl: bool) -> bool {
    crate::encode::tokens_agree(h, g, pl) && (crate::encode::is_parameter(h, pl) ==> insertable(
        map,
        h,
        g,
    ))
}

proof fn lemma_insert_token(
    map: Map<u64, u64>,
    x: Seq<u64>,
    y: Seq<u64>,
    h: u64,
    g: u64,
    at: int,
    pl: bool,
)
    requires
        crate::encode::is_renaming(x, y, pl),
        tracks(map, x, y, pl),
        0 <= at <= x.len(),
    ensures
        crate::encode::is_renaming(x.insert(at, h), y.insert(at, g), pl) <==> agrees_under(
            map,
            h,
            g,
            pl,
        ),
        agrees_under(map, h, g, pl) ==> tracks(
            if crate::encode::is_parameter(h, pl) {
                map.insert(h, g)
            } else {
                map
            },
            x.insert(at, h),
            y.insert(at, g),
            pl,
        ),
{
    let x1 = x.insert(at, h);
    let y1 = y.insert(at, g);
    let place = |i: int| if i < at { i } else { i + 1 };
    assert(x1[at] == h && y1[at] == g);
    assert forall|i: int| 0 <= i < x.len() implies x1[place(i)] == #[trigger] x[i] && y1[place(i)]
        == y[i] by {}
    if crate::encode::is_renaming(x1, y1, pl) {
        assert(crate::encode::tokens_agree(x1[at], y1[at], pl));
        if crate::encode::is_parameter(h, pl) {
            if map.dom().contains(h) {
                let i = choose|i: int|
                    0 <= i < x.len() && #[trigger] x[i] == h && crate::encode::is_parameter(
                        x[i],
                        pl,
                    );
                assert(x1[place(i)] == x1[at]);
                assert(y1[place(i)] == y1[at]);
            } else if map.contains_value(g) {
                let k = choose|k: u64| #[trigger] map.dom().contains(k) && map[k] == g;
                let i = choose|i: int|
                    0 <= i < x.len() && #[trigger] x[i] == k && crate::encode::is_parameter(
                        x[i],
                        pl,
                    );
                assert(y1[place(i)] == y1[at]);
                assert(crate::encode::is_parameter(x1[place(i)], pl));
                assert(crate::encode::is_parameter(x1[at], pl));
                assert(x1[place(i)] == x1[at]);
                assert(map.dom().contains(h));
            }
        }
    }
    if agrees_under(map, h, g, pl) {
        assert forall|i: int| 0 <= i < x1.len() implies crate::encode::tokens_agree(
            #[trigger] x1[i],
            y1[i],
            pl,
        ) by {
            if i < at {
                assert(x1[i] == x[i]);
            } else if i > at {
                assert(x1[i] == x[i - 1]);
            }
        }
        if crate::encode::is_parameter(h, pl) {
            assert forall|i: int|
                0 <= i < x.len() && crate::encode::is_parameter(#[trigger] x[i], pl) implies (x[i]
                == h <==> y[i] == g) by {
                if map.dom().contains(h) {
                    let i0 = choose|i: int|
                        0 <= i < x.len() && #[trigger] x[i] == h && crate::encode::is_parameter(
                            x[i],
                            pl,
                        );
                    assert(x[i] == x[i0] <==> y[i] == y[i0]);
                } else {
                    assert(map.dom().contains(x[i]) && map[x[i]] == y[i]);
                    if y[i] == g {
                        assert(map.contains_value(g));
                    }
                }
            }
        }
        assert forall|i: int, j: int|
            0 <= i < x1.len() && 0 <= j < x1.len() && crate::encode::is_parameter(
                #[trigger] x1[i],
                pl,
            ) && crate::encode::is_parameter(#[trigger] x1[j], pl) implies (x1[i] == x1[j]
            <==> y1[i] == y1[j]) by {
            let oi = if i < at { i } else { i - 1 };
            let oj = if j < at { j } else { j - 1 };
            if i != at && j != at {
                assert(x1[i] == x[oi] && x1[j] == x[oj]);
                assert(y1[i] == y[oi] && y1[j] == y[oj]);
            } else if i != at {
                assert(x1[i] == x[oi] && y1[i] == y[oi]);
            } else if j != at {
                assert(x1[j] == x[oj] && y1[j] == y[oj]);
            }
        }
        let map1 = if crate::encode::is_parameter(h, pl) {
            map.insert(h, g)
        } else {
            map
        };
        assert forall|i: int|
            0 <= i < x1.len() && crate::encode::is_parameter(#[trigger] x1[i], pl) implies map1.dom().contains(
        x1[i]) && map1[x1[i]] == y1[i] by {
            let oi = if i < at { i } else { i - 1 };
            if i != at {
                assert(x1[i] == x[oi] && y1[i] == y[oi]);
                assert(map.dom().contains(x[oi]));
            }
        }
        assert forall|k: u64| #[trigger] map1.dom().contains(k) implies exists|i: int|
            0 <= i < x1.len() && #[trigger] x1[i] == k && crate::encode::is_parameter(x1[i], pl) by {
            if crate::encode::is_parameter(h, pl) && k == h {
                assert(x1[at] == k);
            } else {
                assert(map.dom().contains(k));
                let i = choose|i: int|
                    0 <= i < x.len() && #[trigger] x[i] == k && crate::encode::is_parameter(
                        x[i],
                        pl,
                    );
                assert(x1[place(i)] == k);
            }
        }
    }
}

/// Whether two tokens agree under the renaming built so far, which grows by the pair.
fn compatible(
    hash_a: u64,
    hash_b: u64,
    bijection: &mut Bijection,
    parameterize_literals: bool,
) -> (agree: bool)
    requires
        old(bijection).wf(),
        old(bijection).live < 0x1_0000_0000,
        8 * (old(bijection).live + 1) <= usize::MAX,
    ensures
        final(bijection).wf(),
        final(bijection).live <= old(bijection).live + 1,
        agree == agrees_under(old(bijection)@, hash_a, hash_b, parameterize_literals),
        !agree ==> final(bijection)@ == old(bijection)@ && final(bijection).live == old(
            bijection,
        ).live,
        agree ==> final(bijection)@ == (if crate::encode::is_parameter(
            hash_a,
            parameterize_literals,
        ) {
            old(bijection)@.insert(hash_a, hash_b)
        } else {
            old(bijection)@
        }),
{
    let tag: u64 = hash_a >> 62;
    if tag != hash_b >> 62 {
        return false;
    }
    if tag == FIXED_BITS {
        hash_a == hash_b
    } else if tag == IDENTIFIER_BITS || parameterize_literals {
        bijection.insert(hash_a, hash_b)
    } else {
        hash_a == hash_b
    }
}

/// Grows a candidate into the maximal match around it.
pub fn extend_match(
    files: &[&SourceFile],
    candidate: &Candidate,
    window: usize,
    parameterize_literals: bool,
    bijection: &mut Bijection,
) -> (pair: Option<(Occurrence, Occurrence)>)
    requires
        files_wf(files@),
        candidate_fits(files@, *candidate, window as int),
        old(bijection).wf(),
    ensures
        final(bijection).wf(),
        pair == extension(files@, *candidate, window as int, parameterize_literals),
        window > 0 ==> (pair matches Some((a, b)) ==> occurs(files@, a) && occurs(files@, b)),
{
    let file_a = files[candidate.file_a as usize];
    let file_b = files[candidate.file_b as usize];
    assert(files@[candidate.file_a as int].wf());
    assert(files@[candidate.file_b as int].wf());
    let hashes_a = &file_a.hashes;
    let hashes_b = &file_b.hashes;
    let len_a: usize = hashes_a.len();
    let len_b: usize = hashes_b.len();
    let start_a: usize = candidate.start_a as usize;
    let start_b: usize = candidate.start_b as usize;
    let ghost a = hashes_a@;
    let ghost b = hashes_b@;
    bijection.clear();
    let mut i: usize = 0;
    proof {
        assert(a.subrange(start_a as int, start_a as int) =~= Seq::empty());
        assert(b.subrange(start_b as int, start_b as int) =~= Seq::empty());
    }
    while i < window
        invariant
            i <= window,
            a == hashes_in(files@, candidate.file_a),
            b == hashes_in(files@, candidate.file_b),
            start_a == candidate.start_a,
            start_b == candidate.start_b,
            start_a + window <= len_a,
            start_b + window <= len_b,
            len_a == a.len(),
            len_b == b.len(),
            a == hashes_a@,
            b == hashes_b@,
            a.len() < u32::MAX,
            8 * a.len() <= usize::MAX,
            bijection.wf(),
            bijection.live <= i,
            spans_match(
                a,
                start_a as int,
                b,
                start_b as int,
                0,
                i as int,
                parameterize_literals,
            ),
            tracks(
                bijection@,
                a.subrange(start_a as int, start_a + i),
                b.subrange(start_b as int, start_b + i),
                parameterize_literals,
            ),
        decreases window - i,
    {
        let hash_a: u64 = hashes_a[start_a + i];
        let hash_b: u64 = hashes_b[start_b + i];
        proof {
            let x = a.subrange(start_a as int, start_a + i);
            let y = b.subrange(start_b as int, start_b + i);
            lemma_insert_token(
                bijection@,
                x,
                y,
                hash_a,
                hash_b,
                x.len() as int,
                parameterize_literals,
            );
            assert(x.insert(x.len() as int, hash_a) =~= a.subrange(
                start_a as int,
                start_a + i + 1,
            ));
            assert(y.insert(x.len() as int, hash_b) =~= b.subrange(
                start_b as int,
                start_b + i + 1,
            ));
        }
        if !compatible(hash_a, hash_b, bijection, parameterize_literals) {
            proof {
                if spans_match(
                    a,
                    start_a as int,
                    b,
                    start_b as int,
                    0,
                    window as int,
                    parameterize_literals,
                ) {
                    lemma_match_prefix(
                        a,
                        start_a as int,
                        b,
                        start_b as int,
                        0,
                        window as int,
                        i + 1,
                        parameterize_literals,
                    );
                }
            }
            return None;
        }
        i = i + 1;
    }
    let mut left: usize = 0;
    while start_a > left && start_b > left
        invariant_except_break
            left_extent(
                a,
                start_a as int,
                b,
                start_b as int,
                0,
                window as int,
                parameterize_literals,
            ) == left_extent(
                a,
                start_a as int,
                b,
                start_b as int,
                left as int,
                window as int,
                parameterize_literals,
            ),
        invariant
            left <= start_a,
            left <= start_b,
            start_a + window <= len_a,
            start_b + window <= len_b,
            len_a == a.len(),
            len_b == b.len(),
            a == hashes_a@,
            b == hashes_b@,
            a.len() < u32::MAX,
            8 * a.len() <= usize::MAX,
            bijection.wf(),
            bijection.live <= left + window,
            spans_match(
                a,
                start_a as int,
                b,
                start_b as int,
                left as int,
                window as int,
                parameterize_literals,
            ),
            tracks(
                bijection@,
                a.subrange(start_a - left, start_a + window),
                b.subrange(start_b - left, start_b + window),
                parameterize_literals,
            ),
        ensures
            left == left_extent(
                a,
                start_a as int,
                b,
                start_b as int,
                0,
                window as int,
                parameterize_literals,
            ),
        decreases start_a - left,
    {
        let hash_a: u64 = hashes_a[start_a - left - 1];
        let hash_b: u64 = hashes_b[start_b - left - 1];
        let ghost before = bijection@;
        proof {
            let x = a.subrange(start_a - left, start_a + window);
            let y = b.subrange(start_b - left, start_b + window);
            lemma_insert_token(before, x, y, hash_a, hash_b, 0, parameterize_literals);
            assert(x.insert(0, hash_a) =~= a.subrange(start_a - left - 1, start_a + window));
            assert(y.insert(0, hash_b) =~= b.subrange(start_b - left - 1, start_b + window));
        }
        if !compatible(hash_a, hash_b, bijection, parameterize_literals) {
            break;
        }
        left = left + 1;
    }
    let mut right: usize = window;
    while start_a + right < len_a && start_b + right < len_b
        invariant_except_break
            right_extent(
                a,
                start_a as int,
                b,
                start_b as int,
                left as int,
                window as int,
                parameterize_literals,
            ) == right_extent(
                a,
                start_a as int,
                b,
                start_b as int,
                left as int,
                right as int,
                parameterize_literals,
            ),
        invariant
            window <= right,
            left <= start_a,
            left <= start_b,
            start_a + right <= len_a,
            start_b + right <= len_b,
            len_a == a.len(),
            len_b == b.len(),
            a == hashes_a@,
            b == hashes_b@,
            a.len() < u32::MAX,
            8 * a.len() <= usize::MAX,
            bijection.wf(),
            bijection.live <= left + right,
            spans_match(
                a,
                start_a as int,
                b,
                start_b as int,
                left as int,
                right as int,
                parameterize_literals,
            ),
            tracks(
                bijection@,
                a.subrange(start_a - left, start_a + right),
                b.subrange(start_b - left, start_b + right),
                parameterize_literals,
            ),
        ensures
            right == right_extent(
                a,
                start_a as int,
                b,
                start_b as int,
                left as int,
                window as int,
                parameterize_literals,
            ),
        decreases len_a - right,
    {
        let hash_a: u64 = hashes_a[start_a + right];
        let hash_b: u64 = hashes_b[start_b + right];
        proof {
            let x = a.subrange(start_a - left, start_a + right);
            let y = b.subrange(start_b - left, start_b + right);
            lemma_insert_token(
                bijection@,
                x,
                y,
                hash_a,
                hash_b,
                x.len() as int,
                parameterize_literals,
            );
            assert(x.insert(x.len() as int, hash_a) =~= a.subrange(
                start_a - left,
                start_a + right + 1,
            ));
            assert(y.insert(x.len() as int, hash_b) =~= b.subrange(
                start_b - left,
                start_b + right + 1,
            ));
        }
        if !compatible(hash_a, hash_b, bijection, parameterize_literals) {
            break;
        }
        right = right + 1;
    }
    Some(
        (
            Occurrence {
                file: candidate.file_a,
                start: candidate.start_a - left as u32,
                end: candidate.start_a + right as u32,
            },
            Occurrence {
                file: candidate.file_b,
                start: candidate.start_b - left as u32,
                end: candidate.start_b + right as u32,
            },
        ),
    )
}

proof fn lemma_match_prefix(
    a: Seq<u64>,
    start_a: int,
    b: Seq<u64>,
    start_b: int,
    left: int,
    right: int,
    shorter: int,
    pl: bool,
)
    requires
        0 <= start_a - left <= start_a + shorter <= start_a + right <= a.len(),
        0 <= start_b - left <= start_b + shorter <= start_b + right <= b.len(),
        spans_match(a, start_a, b, start_b, left, right, pl),
    ensures
        spans_match(a, start_a, b, start_b, left, shorter, pl),
{
    let x = a.subrange(start_a - left, start_a + right);
    let y = b.subrange(start_b - left, start_b + right);
    crate::encode::lemma_renaming_prefix(x, y, left + shorter, pl);
    assert(x.take(left + shorter) =~= a.subrange(start_a - left, start_a + shorter));
    assert(y.take(left + shorter) =~= b.subrange(start_b - left, start_b + shorter));
}

proof fn lemma_left_extent(
    a: Seq<u64>,
    start_a: int,
    b: Seq<u64>,
    start_b: int,
    left: int,
    right: int,
    pl: bool,
)
    requires
        spans_match(a, start_a, b, start_b, left, right, pl),
        0 <= left <= start_a,
        left <= start_b,
    ensures
        ({
            let l = left_extent(a, start_a, b, start_b, left, right, pl);
            &&& left <= l <= start_a && l <= start_b
            &&& spans_match(a, start_a, b, start_b, l, right, pl)
            &&& l < start_a && l < start_b ==> !spans_match(
                a,
                start_a,
                b,
                start_b,
                l + 1,
                right,
                pl,
            )
        }),
    decreases start_a - left,
{
    if start_a > left && start_b > left && spans_match(a, start_a, b, start_b, left + 1, right, pl) {
        lemma_left_extent(a, start_a, b, start_b, left + 1, right, pl);
    }
}

proof fn lemma_right_extent(
    a: Seq<u64>,
    start_a: int,
    b: Seq<u64>,
    start_b: int,
    left: int,
    right: int,
    pl: bool,
)
    requires
        spans_match(a, start_a, b, start_b, left, right, pl),
        start_a + right <= a.len(),
        start_b + right <= b.len(),
    ensures
        ({
            let r = right_extent(a, start_a, b, start_b, left, right, pl);
            &&& right <= r && start_a + r <= a.len() && start_b + r <= b.len()
            &&& spans_match(a, start_a, b, start_b, left, r, pl)
            &&& start_a + r < a.len() && start_b + r < b.len() ==> !spans_match(
                a,
                start_a,
                b,
                start_b,
                left,
                r + 1,
                pl,
            )
        }),
    decreases a.len() - start_a - right,
{
    if start_a + right < a.len() && start_b + right < b.len() && spans_match(
        a,
        start_a,
        b,
        start_b,
        left,
        right + 1,
        pl,
    ) {
        lemma_right_extent(a, start_a, b, start_b, left, right + 1, pl);
    }
}

/// The tokens of an occurrence.
pub open spec fn occurrence_span(files: Seq<&SourceFile>, occurrence: Occurrence) -> Seq<u64> {
    hashes_in(files, occurrence.file).subrange(occurrence.start as int, occurrence.end as int)
}

/// The two occurrences are equal up to renaming.
pub open spec fn is_clone_pair(
    files: Seq<&SourceFile>,
    a: Occurrence,
    b: Occurrence,
    parameterize_literals: bool,
) -> bool {
    crate::encode::is_renaming(
        occurrence_span(files, a),
        occurrence_span(files, b),
        parameterize_literals,
    )
}

/// A match is a clone pair around its candidate that cannot grow by a token on either side.
pub proof fn extension_is_maximal(
    files: Seq<&SourceFile>,
    candidate: Candidate,
    window: int,
    parameterize_literals: bool,
)
    requires
        files_wf(files),
        window > 0,
        candidate_fits(files, candidate, window),
    ensures
        match extension(files, candidate, window, parameterize_literals) {
            None => !is_clone_pair(
                files,
                (Occurrence {
                    file: candidate.file_a,
                    start: candidate.start_a,
                    end: (candidate.start_a + window) as u32,
                }),
                (Occurrence {
                    file: candidate.file_b,
                    start: candidate.start_b,
                    end: (candidate.start_b + window) as u32,
                }),
                parameterize_literals,
            ),
            Some((a, b)) => {
                &&& a.file == candidate.file_a && b.file == candidate.file_b
                &&& a.start <= candidate.start_a && candidate.start_a + window <= a.end
                &&& a.end - a.start == b.end - b.start
                &&& candidate.start_a - a.start == candidate.start_b - b.start
                &&& occurs(files, a) && occurs(files, b)
                &&& is_clone_pair(files, a, b, parameterize_literals)
                &&& a.start > 0 && b.start > 0 ==> !is_clone_pair(
                    files,
                    (Occurrence { start: (a.start - 1) as u32, ..a }),
                    (Occurrence { start: (b.start - 1) as u32, ..b }),
                    parameterize_literals,
                )
                &&& a.end < hashes_in(files, a.file).len() && b.end < hashes_in(files, b.file).len()
                    ==> !is_clone_pair(
                    files,
                    (Occurrence { end: (a.end + 1) as u32, ..a }),
                    (Occurrence { end: (b.end + 1) as u32, ..b }),
                    parameterize_literals,
                )
            },
        },
{
    let pl = parameterize_literals;
    assert(files[candidate.file_a as int].wf());
    assert(files[candidate.file_b as int].wf());
    let a = hashes_in(files, candidate.file_a);
    let b = hashes_in(files, candidate.file_b);
    let sa = candidate.start_a as int;
    let sb = candidate.start_b as int;
    if spans_match(a, sa, b, sb, 0, window, pl) {
        lemma_left_extent(a, sa, b, sb, 0, window, pl);
        let l = left_extent(a, sa, b, sb, 0, window, pl);
        lemma_right_extent(a, sa, b, sb, l, window, pl);
        let r = right_extent(a, sa, b, sb, l, window, pl);
        if sa - l > 0 && sb - l > 0 && spans_match(a, sa, b, sb, l + 1, r, pl) {
            lemma_match_prefix(a, sa, b, sb, l + 1, r, window, pl);
        }
    }
}

/// Marks a position that no recorded match covers.
const COVER_NONE: usize = usize::MAX;

/// From this many candidates on, covered positions are looked up in an index.
const COVER_INDEX_MIN_CANDIDATES: usize = 4096;

/// Which pairs of positions recorded matches cover: per position of the first file a list of
/// ranges of the second.
pub struct CoverIndex {
    /// The newest entry of each position.
    pub heads: Vec<usize>,
    /// Entries: the next older entry of the same position, and a range.
    pub entries: Vec<(usize, u32, u32)>,
}

/// Some entry of the list that starts at `entry` holds `position`.
pub open spec fn list_covers(entries: Seq<(usize, u32, u32)>, entry: usize, position: u32) -> bool
    decreases entry,
{
    if entry >= entries.len() {
        false
    } else {
        let (next, start, end) = entries[entry as int];
        (start <= position < end) || (next < entry && list_covers(entries, next, position))
    }
}

proof fn lemma_list_covers_push(
    entries: Seq<(usize, u32, u32)>,
    added: (usize, u32, u32),
    entry: usize,
    position: u32,
)
    requires
        entry < entries.len() || entry == COVER_NONE,
        entries.len() < COVER_NONE,
        forall|e: int|
            0 <= e < entries.len() ==> (#[trigger] entries[e]).0 < e || entries[e].0 == COVER_NONE,
    ensures
        list_covers(entries.push(added), entry, position) == list_covers(entries, entry, position),
    decreases entry,
{
    if entry < entries.len() {
        let next = entries[entry as int].0;
        assert(entries.push(added)[entry as int] == entries[entry as int]);
        if next < entry {
            lemma_list_covers_push(entries, added, next, position);
        }
    }
}

impl CoverIndex {
    pub fn new() -> (index: Self)
        ensures
            index.wf(),
            index.heads@.len() == 0,
    {
        CoverIndex { heads: Vec::new(), entries: Vec::new() }
    }

    /// Lists lead from newer entries to older ones.
    pub open spec fn wf(&self) -> bool {
        &&& forall|p: int|
            0 <= p < self.heads@.len() ==> (#[trigger] self.heads@[p]) < self.entries@.len()
                || self.heads@[p] == usize::MAX
        &&& forall|e: int|
            0 <= e < self.entries@.len() ==> (#[trigger] self.entries@[e]).0 < e
                || self.entries@[e].0 == usize::MAX
    }

    /// A recorded match covers the two positions.
    pub open spec fn is_covered(&self, start_a: int, start_b: u32) -> bool {
        list_covers(self.entries@, self.heads@[start_a], start_b)
    }

    /// Forgets everything and makes room for `tokens` positions.
    pub fn reset(&mut self, tokens: usize)
        ensures
            final(self).wf(),
            final(self).heads@.len() == tokens,
            forall|a: int, b: u32| 0 <= a < tokens ==> !(#[trigger] final(self).is_covered(a, b)),
    {
        self.heads.clear();
        self.heads.resize(tokens, COVER_NONE);
        self.entries.clear();
    }

    /// Records that `start..end` matches `b_start..b_end`.
    pub fn insert(&mut self, start: u32, end: u32, b_start: u32, b_end: u32)
        requires
            old(self).wf(),
            start <= end <= old(self).heads@.len(),
        ensures
            final(self).wf(),
            final(self).heads@.len() == old(self).heads@.len(),
            forall|a: int, b: u32|
                0 <= a < old(self).heads@.len() ==> #[trigger] final(self).is_covered(a, b) == (old(
                    self,
                ).is_covered(a, b) || (start <= a < end && b_start <= b < b_end)),
    {
        let mut position: u32 = start;
        while position < end
            invariant
                self.wf(),
                self.heads@.len() == old(self).heads@.len(),
                start <= position <= end <= self.heads@.len(),
                forall|a: int, b: u32|
                    0 <= a < self.heads@.len() ==> #[trigger] self.is_covered(a, b) == (old(
                        self,
                    ).is_covered(a, b) || (start <= a < position && b_start <= b < b_end)),
            decreases end - position,
        {
            let next: usize = self.heads[position as usize];
            let ghost before = *self;
            let ghost added = (next, b_start, b_end);
            self.entries.push((next, b_start, b_end));
            let newest: usize = self.entries.len() - 1;
            self.heads[position as usize] = newest;
            proof {
                assert forall|a: int, b: u32|
                    0 <= a < self.heads@.len() implies #[trigger] self.is_covered(a, b) == (old(
                    self,
                ).is_covered(a, b) || (start <= a < position + 1 && b_start <= b < b_end)) by {
                    lemma_list_covers_push(before.entries@, added, before.heads@[a], b);
                    assert(before.is_covered(a, b) == (old(self).is_covered(a, b) || (start <= a
                        < position && b_start <= b < b_end)));
                    if a == position {
                        assert(self.entries@[newest as int] == added);
                    }
                }
            }
            position = position + 1;
        }
    }

    /// Whether a recorded match covers the two positions.
    pub fn covers(&self, start_a: u32, start_b: u32) -> (covered: bool)
        requires
            self.wf(),
            start_a < self.heads@.len(),
        ensures
            covered == self.is_covered(start_a as int, start_b),
    {
        let mut entry: usize = self.heads[start_a as usize];
        let total: usize = self.entries.len();
        while entry != COVER_NONE
            invariant
                self.wf(),
                total == self.entries@.len(),
                start_a < self.heads@.len(),
                entry < self.entries@.len() || entry == COVER_NONE,
                self.is_covered(start_a as int, start_b) == list_covers(
                    self.entries@,
                    entry,
                    start_b,
                ),
            decreases (if entry == COVER_NONE { 0 } else { entry + 1 }),
        {
            let (next, b_start, b_end) = self.entries[entry];
            if b_start <= start_b && start_b < b_end {
                return true;
            }
            entry = next;
        }
        false
    }
}

/// The pair of matching spans holds both anchors of the candidate.
pub open spec fn pair_covers(pair: (Occurrence, Occurrence), candidate: Candidate) -> bool {
    &&& pair.0.start <= candidate.start_a < pair.0.end
    &&& pair.1.start <= candidate.start_b < pair.1.end
}

/// The matches of the first `n` candidates of a file pair: a candidate that an earlier match
/// covers adds nothing, any other adds its extension.
pub open spec fn grown_matches(
    files: Seq<&SourceFile>,
    candidates: Seq<Candidate>,
    n: int,
    window: int,
    parameterize_literals: bool,
) -> Seq<(Occurrence, Occurrence)>
    decreases n,
{
    if n <= 0 {
        Seq::empty()
    } else {
        let recorded = grown_matches(files, candidates, n - 1, window, parameterize_literals);
        let candidate = candidates[n - 1];
        if exists|k: int| 0 <= k < recorded.len() && pair_covers(#[trigger] recorded[k], candidate) {
            recorded
        } else {
            match extension(files, candidate, window, parameterize_literals) {
                Some(pair) => recorded.push(pair),
                None => recorded,
            }
        }
    }
}

/// All candidates fit and belong to the same two files.
pub open spec fn is_pair_group(
    files: Seq<&SourceFile>,
    candidates: Seq<Candidate>,
    window: int,
) -> bool {
    &&& forall|i: int|
        0 <= i < candidates.len() ==> candidate_fits(files, #[trigger] candidates[i], window)
    &&& forall|i: int, j: int|
        0 <= i < candidates.len() && 0 <= j < candidates.len() ==> (#[trigger] candidates[i]).file_a
            == (#[trigger] candidates[j]).file_a && candidates[i].file_b == candidates[j].file_b
}

/// No candidate is lost: one whose windows are clones lies in a match, its own or one that was
/// there before it.
pub proof fn candidates_lie_in_matches(
    files: Seq<&SourceFile>,
    candidates: Seq<Candidate>,
    n: int,
    window: int,
    parameterize_literals: bool,
    k: int,
)
    requires
        files_wf(files),
        window > 0,
        is_pair_group(files, candidates, window),
        0 <= k < n <= candidates.len(),
        extension(files, candidates[k], window, parameterize_literals) is Some,
    ensures
        ({
            let matches = grown_matches(files, candidates, n, window, parameterize_literals);
            exists|m: int|
                0 <= m < matches.len() && pair_covers(#[trigger] matches[m], candidates[k])
        }),
    decreases n,
{
    let before = grown_matches(files, candidates, n - 1, window, parameterize_literals);
    let matches = grown_matches(files, candidates, n, window, parameterize_literals);
    if k < n - 1 {
        candidates_lie_in_matches(files, candidates, n - 1, window, parameterize_literals, k);
        let m = choose|m: int|
            0 <= m < before.len() && pair_covers(#[trigger] before[m], candidates[k]);
        assert(matches[m] == before[m]);
    } else if exists|m: int|
        0 <= m < before.len() && pair_covers(#[trigger] before[m], candidates[k]) {
        assert(matches == before);
    } else {
        assert(candidate_fits(files, candidates[k], window));
        extension_is_maximal(files, candidates[k], window, parameterize_literals);
        assert(pair_covers(matches[before.len() as int], candidates[k]));
    }
}

/// Both spans lie in their files and have the same length.
pub open spec fn is_match(files: Seq<&SourceFile>, pair: (Occurrence, Occurrence)) -> bool {
    &&& occurs(files, pair.0)
    &&& occurs(files, pair.1)
    &&& pair.0.end - pair.0.start == pair.1.end - pair.1.start
}

pub open spec fn all_match(files: Seq<&SourceFile>, pairs: Seq<(Occurrence, Occurrence)>) -> bool {
    forall|i: int| 0 <= i < pairs.len() ==> is_match(files, #[trigger] pairs[i])
}

/// The matches all lie in one pair of files.
pub open spec fn same_files(pairs: Seq<(Occurrence, Occurrence)>, file_a: u32, file_b: u32) -> bool {
    forall|i: int|
        0 <= i < pairs.len() ==> (#[trigger] pairs[i]).0.file == file_a && pairs[i].1.file == file_b
}

/// Whether one of the matches covers the candidate.
fn any_covers(recorded: &Vec<(Occurrence, Occurrence)>, candidate: &Candidate) -> (covered: bool)
    ensures
        covered == exists|k: int|
            0 <= k < recorded@.len() && pair_covers(#[trigger] recorded@[k], *candidate),
{
    let mut k: usize = 0;
    while k < recorded.len()
        invariant
            k <= recorded@.len(),
            forall|j: int| 0 <= j < k ==> !pair_covers(#[trigger] recorded@[j], *candidate),
        decreases recorded@.len() - k,
    {
        let (a, b) = recorded[k];
        if a.start <= candidate.start_a && candidate.start_a < a.end && b.start <= candidate.start_b
            && candidate.start_b < b.end {
            assert(pair_covers(recorded@[k as int], *candidate));
            return true;
        }
        k = k + 1;
    }
    false
}

/// Grows the candidates of one file pair, skipping those that an earlier match covers.
pub fn process_group(
    files: &[&SourceFile],
    candidates: &[Candidate],
    window: usize,
    parameterize_literals: bool,
    bijection: &mut Bijection,
    cover: &mut CoverIndex,
) -> (recorded: Vec<(Occurrence, Occurrence)>)
    requires
        files_wf(files@),
        is_pair_group(files@, candidates@, window as int),
        window > 0,
        old(bijection).wf(),
    ensures
        final(bijection).wf(),
        recorded@ == grown_matches(
            files@,
            candidates@,
            candidates@.len() as int,
            window as int,
            parameterize_literals,
        ),
        all_match(files@, recorded@),
        candidates@.len() > 0 ==> same_files(
            recorded@,
            candidates@[0].file_a,
            candidates@[0].file_b,
        ),
{
    let mut recorded: Vec<(Occurrence, Occurrence)> = Vec::new();
    let indexed: bool = candidates.len() >= COVER_INDEX_MIN_CANDIDATES;
    if indexed {
        let first = candidates[0];
        assert(candidate_fits(files@, candidates@[0], window as int));
        let tokens_a: usize = files[first.file_a as usize].tokens.len();
        cover.reset(tokens_a);
    }
    let mut i: usize = 0;
    while i < candidates.len()
        invariant
            files_wf(files@),
            is_pair_group(files@, candidates@, window as int),
            window > 0,
            bijection.wf(),
            i <= candidates@.len(),
            indexed == (candidates@.len() >= COVER_INDEX_MIN_CANDIDATES),
            recorded@ == grown_matches(
                files@,
                candidates@,
                i as int,
                window as int,
                parameterize_literals,
            ),
            all_match(files@, recorded@),
            candidates@.len() > 0 ==> same_files(
                recorded@,
                candidates@[0].file_a,
                candidates@[0].file_b,
            ),
            indexed ==> {
                &&& cover.wf()
                &&& cover.heads@.len() == files@[candidates@[0].file_a as int].tokens@.len()
                &&& forall|a: int, b: u32|
                    0 <= a < cover.heads@.len() ==> #[trigger] cover.is_covered(a, b) == exists|
                        k: int,
                    |
                        0 <= k < recorded@.len() && (#[trigger] recorded@[k]).0.start <= a
                            < recorded@[k].0.end && recorded@[k].1.start <= b < recorded@[k].1.end
            },
        decreases candidates@.len() - i,
    {
        let candidate = candidates[i];
        assert(candidate_fits(files@, candidates@[i as int], window as int));
        assert(candidates@[i as int].file_a == candidates@[0].file_a);
        assert(files@[candidate.file_a as int].wf());
        let covered: bool = if indexed {
            let covered = cover.covers(candidate.start_a, candidate.start_b);
            proof {
                assert(covered == exists|k: int|
                    0 <= k < recorded@.len() && pair_covers(#[trigger] recorded@[k], candidate)) by {
                    if covered {
                        let k = choose|k: int|
                            0 <= k < recorded@.len() && (#[trigger] recorded@[k]).0.start
                                <= candidate.start_a < recorded@[k].0.end && recorded@[k].1.start
                                <= candidate.start_b < recorded@[k].1.end;
                        assert(pair_covers(recorded@[k], candidate));
                    }
                }
            }
            covered
        } else {
            any_covers(&recorded, &candidate)
        };
        if !covered {
            let extended = extend_match(
                files,
                &candidate,
                window,
                parameterize_literals,
                bijection,
            );
            if let Some(pair) = extended {
                let ghost recorded0 = recorded@;
                proof {
                    extension_is_maximal(
                        files@,
                        candidate,
                        window as int,
                        parameterize_literals,
                    );
                    assert(is_match(files@, pair));
                }
                if indexed {
                    let ghost cover0 = *cover;
                    cover.insert(pair.0.start, pair.0.end, pair.1.start, pair.1.end);
                    proof {
                        let recorded1 = recorded0.push(pair);
                        assert forall|a: int, b: u32|
                            0 <= a < cover.heads@.len() implies #[trigger] cover.is_covered(a, b)
                            == exists|k: int|
                            0 <= k < recorded1.len() && (#[trigger] recorded1[k]).0.start <= a
                                < recorded1[k].0.end && recorded1[k].1.start <= b
                                < recorded1[k].1.end by {
                            assert(cover0.is_covered(a, b) == exists|k: int|
                                0 <= k < recorded0.len() && (#[trigger] recorded0[k]).0.start <= a
                                    < recorded0[k].0.end && recorded0[k].1.start <= b
                                    < recorded0[k].1.end);
                            if cover0.is_covered(a, b) {
                                let k = choose|k: int|
                                    0 <= k < recorded0.len() && (#[trigger] recorded0[k]).0.start
                                        <= a < recorded0[k].0.end && recorded0[k].1.start <= b
                                        < recorded0[k].1.end;
                                assert(recorded1[k] == recorded0[k]);
                            }
                            assert(recorded1[recorded0.len() as int] == pair);
                            if exists|k: int|
                                0 <= k < recorded1.len() && (#[trigger] recorded1[k]).0.start <= a
                                    < recorded1[k].0.end && recorded1[k].1.start <= b
                                    < recorded1[k].1.end {
                                let k = choose|k: int|
                                    0 <= k < recorded1.len() && (#[trigger] recorded1[k]).0.start
                                        <= a < recorded1[k].0.end && recorded1[k].1.start <= b
                                        < recorded1[k].1.end;
                                if k < recorded0.len() {
                                    assert(recorded0[k] == recorded1[k]);
                                }
                            }
                        }
                    }
                }
                recorded.push(pair);
            }
        }
        i = i + 1;
    }
    recorded
}

/// Sort key of a match: where it begins in the first file, then in the second.
pub open spec fn match_key(pair: (Occurrence, Occurrence)) -> u128 {
    (pair.0.start * 0x1_0000_0000 + pair.1.start) as u128
}

/// The two matches lie on the same diagonal.
pub open spec fn on_same_diagonal(
    earlier: (Occurrence, Occurrence),
    later: (Occurrence, Occurrence),
) -> bool {
    earlier.0.start - earlier.1.start == later.0.start - later.1.start
}

/// The later match begins where the earlier one ends, in both files and on the same diagonal.
pub open spec fn continues(
    earlier: (Occurrence, Occurrence),
    later: (Occurrence, Occurrence),
) -> bool {
    &&& later.0.start == earlier.0.end
    &&& later.1.start == earlier.1.end
    &&& on_same_diagonal(earlier, later)
}

/// The larger of two positions.
pub open spec fn later_end(a: u32, b: u32) -> u32 {
    if a >= b {
        a
    } else {
        b
    }
}

/// The first `n` matches with each run of continuing matches joined into one.
pub open spec fn chained(
    matches: Seq<(Occurrence, Occurrence)>,
    n: int,
) -> Seq<(Occurrence, Occurrence)>
    decreases n,
{
    if n <= 0 {
        Seq::empty()
    } else {
        let chain = chained(matches, n - 1);
        let (a, b) = matches[n - 1];
        if chain.len() > 0 && continues(chain.last(), (a, b)) {
            let (la, lb) = chain.last();
            chain.update(
                chain.len() - 1,
                (
                    Occurrence { end: later_end(la.end, a.end), ..la },
                    Occurrence { end: later_end(lb.end, b.end), ..lb },
                ),
            )
        } else {
            chain.push((a, b))
        }
    }
}

/// The matches ordered by position, with continuing matches joined.
pub open spec fn merged_chain(
    matches: Seq<(Occurrence, Occurrence)>,
) -> Seq<(Occurrence, Occurrence)> {
    let keys = matches.map_values(|pair: (Occurrence, Occurrence)| match_key(pair));
    chained(crate::sort::stable_sorted(matches, keys), matches.len() as int)
}

/// Whether two matches lie on the same diagonal.
fn aligned(la: &Occurrence, lb: &Occurrence, a: &Occurrence, b: &Occurrence) -> (same: bool)
    ensures
        same == on_same_diagonal((*la, *lb), (*a, *b)),
{
    (la.start as i64 - lb.start as i64) == (a.start as i64 - b.start as i64)
}

/// Orders the matches of a file pair and joins those that continue each other.
pub fn chain_merge(matches: Vec<(Occurrence, Occurrence)>) -> (chain: Vec<(Occurrence, Occurrence)>)
    ensures
        chain@ == merged_chain(matches@),
{
    let mut keys: Vec<u128> = Vec::new();
    let ghost wanted = matches@.map_values(|pair: (Occurrence, Occurrence)| match_key(pair));
    let mut i: usize = 0;
    while i < matches.len()
        invariant
            i <= matches@.len(),
            wanted == matches@.map_values(|pair: (Occurrence, Occurrence)| match_key(pair)),
            keys@ == wanted.take(i as int),
        decreases matches@.len() - i,
    {
        let (a, b) = matches[i];
        keys.push(a.start as u128 * 0x1_0000_0000 + b.start as u128);
        i = i + 1;
        assert(keys@ =~= wanted.take(i as int));
    }
    assert(keys@ =~= wanted);
    let sorted = sort_by_keys(&matches, &keys);
    proof {
        crate::sort::lemma_stable_order(wanted);
        assert(sorted@.len() == matches@.len());
    }
    let mut chain: Vec<(Occurrence, Occurrence)> = Vec::new();
    let mut k: usize = 0;
    while k < sorted.len()
        invariant
            k <= sorted@.len(),
            chain@ == chained(sorted@, k as int),
        decreases sorted@.len() - k,
    {
        let (a, b) = sorted[k];
        let count: usize = chain.len();
        let mut joined: bool = false;
        if count > 0 {
            let (la, lb) = chain[count - 1];
            if a.start == la.end && b.start == lb.end && aligned(&la, &lb, &a, &b) {
                let end_a: u32 = if la.end >= a.end {
                    la.end
                } else {
                    a.end
                };
                let end_b: u32 = if lb.end >= b.end {
                    lb.end
                } else {
                    b.end
                };
                chain.set(
                    count - 1,
                    (
                        Occurrence { file: la.file, start: la.start, end: end_a },
                        Occurrence { file: lb.file, start: lb.start, end: end_b },
                    ),
                );
                joined = true;
            }
        }
        if !joined {
            chain.push((a, b));
        }
        k = k + 1;
    }
    chain
}

proof fn lemma_chained_matches(
    files: Seq<&SourceFile>,
    matches: Seq<(Occurrence, Occurrence)>,
    n: int,
    file_a: u32,
    file_b: u32,
)
    requires
        all_match(files, matches),
        same_files(matches, file_a, file_b),
        0 <= n <= matches.len(),
    ensures
        all_match(files, chained(matches, n)),
        same_files(chained(matches, n), file_a, file_b),
    decreases n,
{
    if n > 0 {
        lemma_chained_matches(files, matches, n - 1, file_a, file_b);
        let chain = chained(matches, n - 1);
        assert(is_match(files, matches[n - 1]));
        assert(matches[n - 1].0.file == file_a);
        if chain.len() > 0 {
            assert(is_match(files, chain[chain.len() - 1]));
            assert(chain[chain.len() - 1].0.file == file_a);
        }
    }
}

/// Joined matches still lie in their files, with both spans of the same length.
pub proof fn merged_chain_matches(
    files: Seq<&SourceFile>,
    matches: Seq<(Occurrence, Occurrence)>,
    file_a: u32,
    file_b: u32,
)
    requires
        all_match(files, matches),
        same_files(matches, file_a, file_b),
    ensures
        all_match(files, merged_chain(matches)),
        same_files(merged_chain(matches), file_a, file_b),
{
    let keys = matches.map_values(|pair: (Occurrence, Occurrence)| match_key(pair));
    crate::sort::lemma_stable_order(keys);
    let order = crate::sort::stable_order(keys);
    let sorted = crate::sort::stable_sorted(matches, keys);
    assert forall|i: int| 0 <= i < sorted.len() implies is_match(files, #[trigger] sorted[i])
        && sorted[i].0.file == file_a && sorted[i].1.file == file_b by {
        assert(sorted[i] == matches[order[i]]);
    }
    lemma_chained_matches(files, sorted, matches.len() as int, file_a, file_b);
}

/// Both spans of the match touch at least `min_lines` lines.
pub open spec fn spans_lines(
    files: Seq<&SourceFile>,
    pair: (Occurrence, Occurrence),
    min_lines: int,
) -> bool {
    files[pair.0.file as int].lines_of(pair.0) >= min_lines && files[pair.1.file as int].lines_of(
        pair.1,
    ) >= min_lines
}

/// The joined matches of a file pair that are long enough.
pub open spec fn final_matches(
    files: Seq<&SourceFile>,
    matches: Seq<(Occurrence, Occurrence)>,
    min_lines: int,
) -> Seq<(Occurrence, Occurrence)> {
    merged_chain(matches).filter(
        |pair: (Occurrence, Occurrence)| spans_lines(files, pair, min_lines),
    )
}

/// Joins the matches of a file pair and keeps those that are long enough.
pub(crate) fn finalize_pair(
    files: &[&SourceFile],
    matches: Vec<(Occurrence, Occurrence)>,
    min_lines: usize,
    Ghost(file_a): Ghost<u32>,
    Ghost(file_b): Ghost<u32>,
) -> (kept: Vec<(Occurrence, Occurrence)>)
    requires
        files_wf(files@),
        all_match(files@, matches@),
        same_files(matches@, file_a, file_b),
    ensures
        kept@ == final_matches(files@, matches@, min_lines as int),
        all_match(files@, kept@),
{
    proof {
        merged_chain_matches(files@, matches@, file_a, file_b);
    }
    let chain = chain_merge(matches);
    let ghost keep = |pair: (Occurrence, Occurrence)| spans_lines(files@, pair, min_lines as int);
    let mut kept: Vec<(Occurrence, Occurrence)> = Vec::new();
    let mut i: usize = 0;
    assert(chain@.take(0).filter(keep) =~= Seq::empty()) by {
        reveal_with_fuel(Seq::filter, 1);
    }
    while i < chain.len()
        invariant
            files_wf(files@),
            all_match(files@, chain@),
            all_match(files@, kept@),
            i <= chain@.len(),
            keep == (|pair: (Occurrence, Occurrence)| spans_lines(files@, pair, min_lines as int)),
            kept@ == chain@.take(i as int).filter(keep),
        decreases chain@.len() - i,
    {
        let (a, b) = chain[i];
        assert(is_match(files@, chain@[i as int]));
        assert(files@[a.file as int].wf());
        assert(files@[b.file as int].wf());
        let lines_a: usize = files[a.file as usize].line_span(&a);
        let lines_b: usize = files[b.file as usize].line_span(&b);
        proof {
            let shorter = chain@.take(i as int);
            let longer = chain@.take(i + 1);
            assert(longer.drop_last() =~= shorter);
            assert(longer.last() == chain@[i as int]);
            reveal_with_fuel(Seq::filter, 2);
        }
        if lines_a >= min_lines && lines_b >= min_lines {
            kept.push((a, b));
        }
        i = i + 1;
    }
    assert(chain@.take(chain@.len() as int) =~= chain@);
    kept
}

} // verus!
