//! Partitions: union-find and grouping by label.
use std::collections::HashMap;
use vstd::prelude::*;

verus! {

/// The labels with every `from` replaced by `to`.
pub open spec fn relabel(labels: Seq<int>, from: int, to: int) -> Seq<int> {
    labels.map_values(|label: int| if label == from { to } else { label })
}

/// Labels of `n` elements after joining the first `m` pairs: each element starts with itself as
/// its label, and joining a pair gives the class of its first element the label of its second.
pub open spec fn joined_labels(n: nat, pairs: Seq<(int, int)>, m: int) -> Seq<int>
    decreases m,
{
    if m <= 0 {
        Seq::new(n, |i: int| i)
    } else {
        let labels = joined_labels(n, pairs, m - 1);
        let (a, b) = pairs[m - 1];
        relabel(labels, labels[a], labels[b])
    }
}

/// `rel` is an equivalence relation.
pub open spec fn is_equivalence(rel: spec_fn(int, int) -> bool) -> bool {
    &&& forall|x: int| #[trigger] rel(x, x)
    &&& forall|x: int, y: int| #[trigger] rel(x, y) ==> rel(y, x)
    &&& forall|x: int, y: int, z: int| #[trigger] rel(x, y) && #[trigger] rel(y, z) ==> rel(x, z)
}

/// Joining related pairs only ever brings related elements together.
pub proof fn joined_elements_are_related(
    n: nat,
    pairs: Seq<(int, int)>,
    m: int,
    rel: spec_fn(int, int) -> bool,
)
    requires
        0 <= m <= pairs.len(),
        is_equivalence(rel),
        forall|i: int|
            0 <= i < pairs.len() ==> 0 <= (#[trigger] pairs[i]).0 < n && 0 <= pairs[i].1 < n && rel(
                pairs[i].0,
                pairs[i].1,
            ),
    ensures
        joined_labels(n, pairs, m).len() == n,
        forall|x: int|
            0 <= x < n ==> 0 <= #[trigger] joined_labels(n, pairs, m)[x] < n && rel(
                x,
                joined_labels(n, pairs, m)[x],
            ),
        forall|x: int, y: int|
            0 <= x < n && 0 <= y < n && #[trigger] joined_labels(n, pairs, m)[x]
                == #[trigger] joined_labels(n, pairs, m)[y] ==> rel(x, y),
    decreases m,
{
    if m > 0 {
        joined_elements_are_related(n, pairs, m - 1, rel);
        let labels = joined_labels(n, pairs, m - 1);
        let (a, b) = pairs[m - 1];
        let now = joined_labels(n, pairs, m);
        assert(rel(a, b));
        assert forall|x: int| 0 <= x < n implies 0 <= #[trigger] now[x] < n && rel(x, now[x]) by {
            assert(rel(x, labels[x]));
            if labels[x] == labels[a] {
                assert(rel(a, labels[a]));
                assert(rel(b, labels[b]));
                assert(rel(labels[a], a));
                assert(rel(x, a));
                assert(rel(x, b));
            }
        }
    }
    let labels = joined_labels(n, pairs, m);
    assert forall|x: int, y: int|
        0 <= x < n && 0 <= y < n && #[trigger] labels[x] == #[trigger] labels[y] implies rel(x, y) by {
        assert(rel(x, labels[x]));
        assert(rel(y, labels[y]));
        assert(rel(labels[y], y));
    }
}

/// The root of `x`: where following parents leads.
pub open spec fn root_of(parent: Seq<usize>, rank: Seq<nat>, x: int) -> int
    decreases rank[x],
{
    if parent[x] == x || rank[parent[x] as int] >= rank[x] {
        x
    } else {
        root_of(parent, rank, parent[x] as int)
    }
}

/// Disjoint sets of the numbers below `n`.
pub struct Dsu {
    pub parent: Vec<usize>,
    /// Falls along every path to a root.
    pub rank: Ghost<Seq<nat>>,
}

impl View for Dsu {
    type V = Seq<int>;

    /// The root of every element.
    open spec fn view(&self) -> Seq<int> {
        Seq::new(self.parent@.len(), |x: int| root_of(self.parent@, self.rank@, x))
    }
}

spec fn forest(parent: Seq<usize>, rank: Seq<nat>) -> bool {
    &&& rank.len() == parent.len()
    &&& forall|x: int|
        0 <= x < parent.len() ==> (#[trigger] parent[x]) < parent.len() && (parent[x] == x
            || rank[parent[x] as int] < rank[x])
}

proof fn lemma_root(parent: Seq<usize>, rank: Seq<nat>, x: int)
    requires
        forest(parent, rank),
        0 <= x < parent.len(),
    ensures
        0 <= root_of(parent, rank, x) < parent.len(),
        parent[root_of(parent, rank, x)] == root_of(parent, rank, x),
        root_of(parent, rank, x) != x ==> rank[root_of(parent, rank, x)] < rank[x],
    decreases rank[x],
{
    if parent[x] != x {
        lemma_root(parent, rank, parent[x] as int);
    }
}

proof fn lemma_compress(parent: Seq<usize>, rank: Seq<nat>, x: int, y: int)
    requires
        forest(parent, rank),
        0 <= x < parent.len(),
        0 <= y < parent.len(),
    ensures
        forest(parent.update(x, root_of(parent, rank, x) as usize), rank),
        root_of(parent.update(x, root_of(parent, rank, x) as usize), rank, y) == root_of(
            parent,
            rank,
            y,
        ),
    decreases rank[y],
{
    lemma_root(parent, rank, x);
    let r = root_of(parent, rank, x);
    let shorter = parent.update(x, r as usize);
    if y == x {
        if r != x {
            assert(shorter[r] == r);
            assert(root_of(shorter, rank, r) == r);
        }
    } else if parent[y] != y {
        lemma_compress(parent, rank, x, parent[y] as int);
    }
}

/// The ranks after the tree of `a` is hung below `b`.
spec fn linked_rank(parent: Seq<usize>, rank: Seq<nat>, a: int, b: int) -> Seq<nat> {
    Seq::new(
        rank.len(),
        |x: int|
            if root_of(parent, rank, x) == a {
                rank[x] + rank[b] + 1
            } else {
                rank[x]
            },
    )
}

proof fn lemma_link(parent: Seq<usize>, rank: Seq<nat>, a: int, b: int, y: int)
    requires
        forest(parent, rank),
        0 <= a < parent.len(),
        0 <= b < parent.len(),
        0 <= y < parent.len(),
        a != b,
        parent[a] == a,
        parent[b] == b,
    ensures
        forest(parent.update(a, b as usize), linked_rank(parent, rank, a, b)),
        root_of(parent.update(a, b as usize), linked_rank(parent, rank, a, b), y) == (if root_of(
            parent,
            rank,
            y,
        ) == a {
            b
        } else {
            root_of(parent, rank, y)
        }),
    decreases rank[y],
{
    let linked = parent.update(a, b as usize);
    let ranks = linked_rank(parent, rank, a, b);
    assert forall|x: int| 0 <= x < linked.len() implies (#[trigger] linked[x]) < linked.len() && (
    linked[x] == x || ranks[linked[x] as int] < ranks[x]) by {
        assert(parent[x] < parent.len());
        if x != a && parent[x] != x {
            assert(root_of(parent, rank, x) == root_of(parent, rank, parent[x] as int));
        }
    }
    if parent[y] != y {
        lemma_link(parent, rank, a, b, parent[y] as int);
        assert(linked[y] == parent[y]);
    } else if y == a {
        assert(linked[b] == b);
        assert(linked[a] == b);
        assert(root_of(linked, ranks, b) == b);
    }
}

impl Dsu {
    pub closed spec fn wf(&self) -> bool {
        forest(self.parent@, self.rank@)
    }

    /// Every element in a set of its own.
    pub fn new(n: usize) -> (dsu: Self)
        ensures
            dsu.wf(),
            dsu@ == Seq::new(n as nat, |i: int| i),
    {
        let mut parent: Vec<usize> = Vec::new();
        let mut i: usize = 0;
        while i < n
            invariant
                i <= n,
                parent@.len() == i,
                forall|x: int| 0 <= x < i ==> #[trigger] parent@[x] == x,
            decreases n - i,
        {
            parent.push(i);
            i = i + 1;
        }
        let dsu = Dsu { parent, rank: Ghost(Seq::new(n as nat, |i: int| 0)) };
        assert(dsu@ =~= Seq::new(n as nat, |i: int| i));
        dsu
    }

    /// The root of the set of `x`; paths get shorter, sets stay.
    pub fn find(&mut self, x: usize) -> (root: usize)
        requires
            old(self).wf(),
            x < old(self)@.len(),
        ensures
            final(self).wf(),
            final(self)@ == old(self)@,
            root == old(self)@[x as int],
            root < old(self)@.len(),
    {
        let ghost rank = self.rank@;
        let mut root: usize = x;
        while self.parent[root] != root
            invariant
                forest(self.parent@, rank),
                rank == self.rank@,
                *self == *old(self),
                root < self.parent@.len(),
                x < self.parent@.len(),
                root_of(self.parent@, rank, root as int) == root_of(self.parent@, rank, x as int),
            decreases rank[root as int],
        {
            assert(self.parent@[root as int] < self.parent@.len());
            root = self.parent[root];
        }
        let mut at: usize = x;
        while self.parent[at] != at
            invariant
                forest(self.parent@, rank),
                rank == self.rank@,
                self.parent@.len() == old(self).parent@.len(),
                self@ == old(self)@,
                at < self.parent@.len(),
                root < self.parent@.len(),
                root == old(self)@[x as int],
                root_of(self.parent@, rank, at as int) == root,
            decreases rank[at as int],
        {
            let next: usize = self.parent[at];
            assert(self.parent@[at as int] < self.parent@.len());
            let ghost before = self.parent@;
            self.parent[at] = root;
            proof {
                assert(self.parent@ == before.update(at as int, root));
                assert forall|y: int| 0 <= y < before.len() implies root_of(self.parent@, rank, y)
                    == #[trigger] root_of(before, rank, y) by {
                    lemma_compress(before, rank, at as int, y);
                }
                lemma_compress(before, rank, at as int, next as int);
                assert forall|y: int| 0 <= y < before.len() implies #[trigger] self@[y] == old(
                    self,
                )@[y] by {
                    assert(root_of(self.parent@, rank, y) == root_of(before, rank, y));
                }
                assert(self@ =~= old(self)@);
                assert(root_of(before, rank, next as int) == root);
            }
            at = next;
        }
        root
    }

    /// Joins the sets of `a` and `b` under the root of `b`.
    pub fn union(&mut self, a: usize, b: usize)
        requires
            old(self).wf(),
            a < old(self)@.len(),
            b < old(self)@.len(),
        ensures
            final(self).wf(),
            final(self)@ == relabel(old(self)@, old(self)@[a as int], old(self)@[b as int]),
    {
        let ra = self.find(a);
        let rb = self.find(b);
        if ra != rb {
            let ghost parent = self.parent@;
            let ghost rank = self.rank@;
            proof {
                lemma_root(parent, rank, a as int);
                lemma_root(parent, rank, b as int);
            }
            self.parent[ra] = rb;
            self.rank = Ghost(linked_rank(parent, rank, ra as int, rb as int));
            proof {
                assert forall|y: int| 0 <= y < parent.len() implies #[trigger] self@[y] == (if old(
                    self,
                )@[y] == ra {
                    rb as int
                } else {
                    old(self)@[y]
                }) by {
                    lemma_link(parent, rank, ra as int, rb as int, y);
                }
                lemma_link(parent, rank, ra as int, rb as int, ra as int);
                assert(self@ =~= relabel(old(self)@, ra as int, rb as int));
            }
        } else {
            assert(self@ =~= relabel(old(self)@, ra as int, rb as int));
        }
    }
}

/// `x` is the first element with its label.
pub open spec fn is_first(labels: Seq<int>, x: int) -> bool {
    forall|y: int| 0 <= y < x ==> #[trigger] labels[y] != labels[x]
}

/// The first element of each label among the first `n`, in order.
pub open spec fn first_members(labels: Seq<int>, n: int) -> Seq<int>
    decreases n,
{
    if n <= 0 {
        Seq::empty()
    } else if is_first(labels, n - 1) {
        first_members(labels, n - 1).push(n - 1)
    } else {
        first_members(labels, n - 1)
    }
}

/// The elements with a label among the first `n`, in order.
pub open spec fn members(labels: Seq<int>, label: int, n: int) -> Seq<int>
    decreases n,
{
    if n <= 0 {
        Seq::empty()
    } else if labels[n - 1] == label {
        members(labels, label, n - 1).push(n - 1)
    } else {
        members(labels, label, n - 1)
    }
}

/// The first `n` elements grouped by label, groups ordered by their first element.
pub open spec fn classes(labels: Seq<int>, n: int) -> Seq<Seq<int>> {
    first_members(labels, n).map_values(|x: int| members(labels, labels[x], n))
}

/// The members of a class are exactly the elements with its label, ascending.
pub proof fn lemma_members(labels: Seq<int>, label: int, n: int)
    requires
        0 <= n <= labels.len(),
    ensures
        forall|i: int|
            0 <= i < members(labels, label, n).len() ==> 0 <= #[trigger] members(
                labels,
                label,
                n,
            )[i] < n && labels[members(labels, label, n)[i]] == label,
        forall|i: int, j: int|
            0 <= i < j < members(labels, label, n).len() ==> #[trigger] members(labels, label, n)[i]
                < #[trigger] members(labels, label, n)[j],
        forall|x: int|
            0 <= x < n && #[trigger] labels[x] == label ==> members(labels, label, n).contains(x),
    decreases n,
{
    if n > 0 {
        lemma_members(labels, label, n - 1);
        let shorter = members(labels, label, n - 1);
        let longer = members(labels, label, n);
        assert forall|x: int| 0 <= x < n && #[trigger] labels[x] == label implies longer.contains(
            x,
        ) by {
            if x == n - 1 {
                assert(longer[shorter.len() as int] == x);
            } else {
                let i = choose|i: int| 0 <= i < shorter.len() && shorter[i] == x;
                assert(longer[i] == x);
            }
        }
    }
}

/// The first members are the first elements of their labels, one for every label.
pub proof fn lemma_first_members(labels: Seq<int>, n: int)
    requires
        0 <= n <= labels.len(),
    ensures
        forall|p: int|
            0 <= p < first_members(labels, n).len() ==> 0 <= #[trigger] first_members(labels, n)[p]
                < n && is_first(labels, first_members(labels, n)[p]),
        forall|p: int, q: int|
            0 <= p < q < first_members(labels, n).len() ==> #[trigger] first_members(labels, n)[p]
                < #[trigger] first_members(labels, n)[q],
        forall|x: int|
            0 <= x < n ==> exists|p: int|
                0 <= p < first_members(labels, n).len() && labels[#[trigger] first_members(
                    labels,
                    n,
                )[p]] == #[trigger] labels[x],
    decreases n,
{
    if n > 0 {
        lemma_first_members(labels, n - 1);
        let shorter = first_members(labels, n - 1);
        let longer = first_members(labels, n);
        assert forall|x: int| 0 <= x < n implies exists|p: int|
            0 <= p < longer.len() && labels[#[trigger] longer[p]] == #[trigger] labels[x] by {
            let seen = if x < n - 1 {
                x
            } else if is_first(labels, n - 1) {
                n - 1
            } else {
                choose|y: int| 0 <= y < n - 1 && #[trigger] labels[y] == labels[n - 1]
            };
            if seen == n - 1 {
                assert(longer[shorter.len() as int] == n - 1);
            } else {
                let p = choose|p: int|
                    0 <= p < shorter.len() && labels[#[trigger] shorter[p]] == labels[seen];
                assert(longer[p] == shorter[p]);
            }
        }
    }
}

/// The index vectors as mathematical sequences.
pub open spec fn index_groups(groups: Seq<Vec<usize>>) -> Seq<Seq<int>> {
    groups.map_values(|group: Vec<usize>| group@.map_values(|x: usize| x as int))
}

/// The labels as mathematical integers.
pub open spec fn label_view(labels: Seq<usize>) -> Seq<int> {
    labels.map_values(|x: usize| x as int)
}

/// Groups elements by label, in order of first appearance.
pub fn group_by_label(labels: &Vec<usize>) -> (groups: Vec<Vec<usize>>)
    ensures
        index_groups(groups@) == classes(label_view(labels@), labels@.len() as int),
{
    broadcast use vstd::std_specs::hash::group_hash_axioms;

    let ghost view = label_view(labels@);
    let mut slots: HashMap<usize, usize> = HashMap::new();
    let mut groups: Vec<Vec<usize>> = Vec::new();
    let mut n: usize = 0;
    assert(index_groups(groups@) =~= classes(view, 0));
    while n < labels.len()
        invariant
            n <= labels@.len(),
            view == label_view(labels@),
            index_groups(groups@) == classes(view, n as int),
            forall|l: usize|
                #![trigger slots@.dom().contains(l)]
                slots@.dom().contains(l) ==> slots@[l] < groups@.len() && view[first_members(
                    view,
                    n as int,
                )[slots@[l] as int]] == l,
            forall|x: int| 0 <= x < n ==> slots@.dom().contains(#[trigger] labels@[x]),
        decreases labels@.len() - n,
    {
        let label: usize = labels[n];
        let ghost firsts0 = first_members(view, n as int);
        let ghost groups0 = groups@;
        let ghost slots0 = slots@;
        proof {
            lemma_first_members(view, n as int);
            assert(index_groups(groups@).len() == firsts0.len());
        }
        let known = slots.get(&label);
        match known {
            Some(slot) => {
                let slot: usize = *slot;
                proof {
                    lemma_known_label(view, n as int, slot as int);
                }
                groups[slot].push(n);
                assert(index_groups(groups@) =~= index_groups(groups0).update(
                    slot as int,
                    index_groups(groups0)[slot as int].push(n as int),
                )) by {
                    assert(index_groups(groups@)[slot as int] =~= index_groups(
                        groups0,
                    )[slot as int].push(n as int));
                }
            },
            None => {
                proof {
                    assert forall|y: int| 0 <= y < n implies #[trigger] view[y] != view[n as int] by {
                        assert(slots@.dom().contains(labels@[y]));
                    }
                    lemma_new_label(view, n as int);
                }
                let slot: usize = groups.len();
                let mut group: Vec<usize> = Vec::new();
                group.push(n);
                let ghost single = group@;
                groups.push(group);
                slots.insert(label, slot);
                proof {
                    assert(single.map_values(|x: usize| x as int) =~= seq![n as int]);
                    assert(index_groups(groups@) =~= index_groups(groups0).push(seq![n as int]));
                    let firsts = first_members(view, n + 1);
                    assert forall|l: usize|
                        #![trigger slots@.dom().contains(l)]
                        slots@.dom().contains(l) implies slots@[l] < groups@.len() && view[firsts[
                    slots@[l] as int]] == l by {
                        if l != label {
                            assert(slots0.dom().contains(l));
                            assert(firsts[slots0[l] as int] == firsts0[slots0[l] as int]);
                        }
                    }
                }
            },
        }
        n = n + 1;
    }
    groups
}

/// An element whose label is known joins its class.
proof fn lemma_known_label(labels: Seq<int>, n: int, slot: int)
    requires
        0 <= n < labels.len(),
        0 <= slot < first_members(labels, n).len(),
        labels[first_members(labels, n)[slot]] == labels[n],
    ensures
        first_members(labels, n + 1) == first_members(labels, n),
        classes(labels, n + 1) == classes(labels, n).update(
            slot,
            classes(labels, n)[slot].push(n),
        ),
{
    let firsts = first_members(labels, n);
    lemma_first_at(labels, n, slot);
    assert(labels[firsts[slot]] == labels[n]);
    assert(!is_first(labels, n));
    let wanted = classes(labels, n).update(slot, classes(labels, n)[slot].push(n));
    assert forall|p: int| 0 <= p < firsts.len() implies #[trigger] classes(labels, n + 1)[p]
        == wanted[p] by {
        // Two classes never share a label.
        if p < slot {
            lemma_firsts_differ(labels, n, p, slot);
        } else if slot < p {
            lemma_firsts_differ(labels, n, slot, p);
        }
    }
    assert(classes(labels, n + 1) =~= wanted);
}

/// An element with a new label starts a class.
proof fn lemma_new_label(labels: Seq<int>, n: int)
    requires
        0 <= n < labels.len(),
        is_first(labels, n),
    ensures
        first_members(labels, n + 1) == first_members(labels, n).push(n),
        classes(labels, n + 1) == classes(labels, n).push(seq![n]),
{
    let firsts = first_members(labels, n);
    lemma_no_members(labels, labels[n], n);
    assert(members(labels, labels[n], n + 1) =~= seq![n]);
    assert forall|p: int| 0 <= p < firsts.len() implies #[trigger] classes(labels, n + 1)[p]
        == classes(labels, n)[p] by {
        lemma_first_at(labels, n, p);
        assert(first_members(labels, n + 1)[p] == firsts[p]);
        assert(labels[firsts[p]] != labels[n]);
    }
    assert(classes(labels, n + 1) =~= classes(labels, n).push(seq![n]));
}

proof fn lemma_no_members(labels: Seq<int>, label: int, n: int)
    requires
        0 <= n <= labels.len(),
        forall|y: int| 0 <= y < n ==> #[trigger] labels[y] != label,
    ensures
        members(labels, label, n) == Seq::<int>::empty(),
    decreases n,
{
    if n > 0 {
        lemma_no_members(labels, label, n - 1);
    }
}

/// Every class is non-empty, its elements are below `n` and share one label.
pub proof fn lemma_classes(labels: Seq<int>, n: int)
    requires
        0 <= n <= labels.len(),
    ensures
        forall|c: int|
            0 <= c < classes(labels, n).len() ==> (#[trigger] classes(labels, n)[c]).len() > 0,
        forall|c: int, i: int|
            0 <= c < classes(labels, n).len() && 0 <= i < classes(labels, n)[c].len() ==> 0
                <= #[trigger] classes(labels, n)[c][i] < n,
        forall|c: int, i: int, j: int|
            0 <= c < classes(labels, n).len() && 0 <= i < classes(labels, n)[c].len() && 0 <= j
                < classes(labels, n)[c].len() ==> labels[#[trigger] classes(labels, n)[c][i]]
                == labels[#[trigger] classes(labels, n)[c][j]],
{
    lemma_first_members(labels, n);
    let firsts = first_members(labels, n);
    assert forall|c: int| 0 <= c < classes(labels, n).len() implies (#[trigger] classes(
        labels,
        n,
    )[c]).len() > 0 by {
        lemma_members(labels, labels[firsts[c]], n);
        assert(members(labels, labels[firsts[c]], n).contains(firsts[c]));
    }
    assert forall|c: int, i: int|
        0 <= c < classes(labels, n).len() && 0 <= i < classes(labels, n)[c].len() implies 0
        <= #[trigger] classes(labels, n)[c][i] < n && labels[classes(labels, n)[c][i]]
        == labels[firsts[c]] by {
        lemma_members(labels, labels[firsts[c]], n);
    }
}

/// Two classes do not share a label.
pub proof fn lemma_classes_differ(labels: Seq<int>, n: int, c: int, i: int, d: int, j: int)
    requires
        0 <= n <= labels.len(),
        0 <= c < classes(labels, n).len(),
        0 <= d < classes(labels, n).len(),
        c != d,
        0 <= i < classes(labels, n)[c].len(),
        0 <= j < classes(labels, n)[d].len(),
    ensures
        labels[classes(labels, n)[c][i]] != labels[classes(labels, n)[d][j]],
{
    let firsts = first_members(labels, n);
    lemma_member_label(labels, labels[firsts[c]], n, i);
    lemma_member_label(labels, labels[firsts[d]], n, j);
    if c < d {
        lemma_firsts_differ(labels, n, c, d);
    } else {
        lemma_firsts_differ(labels, n, d, c);
    }
}

proof fn lemma_member_label(labels: Seq<int>, label: int, n: int, i: int)
    requires
        0 <= n <= labels.len(),
        0 <= i < members(labels, label, n).len(),
    ensures
        labels[members(labels, label, n)[i]] == label,
{
    lemma_members(labels, label, n);
}

proof fn lemma_first_at(labels: Seq<int>, n: int, p: int)
    requires
        0 <= n <= labels.len(),
        0 <= p < first_members(labels, n).len(),
    ensures
        0 <= first_members(labels, n)[p] < n,
        is_first(labels, first_members(labels, n)[p]),
{
    lemma_first_members(labels, n);
}

proof fn lemma_firsts_differ(labels: Seq<int>, n: int, c: int, d: int)
    requires
        0 <= n <= labels.len(),
        0 <= c < d < first_members(labels, n).len(),
    ensures
        labels[first_members(labels, n)[c]] != labels[first_members(labels, n)[d]],
{
    lemma_first_members(labels, n);
    let firsts = first_members(labels, n);
    assert(firsts[c] < firsts[d]);
    assert(is_first(labels, firsts[d]));
}

/// Joined pairs end up with the same label.
pub proof fn joined_pairs_share_label(n: nat, pairs: Seq<(int, int)>, m: int, i: int)
    requires
        0 <= i < m <= pairs.len(),
        forall|k: int|
            0 <= k < pairs.len() ==> 0 <= (#[trigger] pairs[k]).0 < n && 0 <= pairs[k].1 < n,
    ensures
        joined_labels(n, pairs, m).len() == n,
        joined_labels(n, pairs, m)[pairs[i].0] == joined_labels(n, pairs, m)[pairs[i].1],
    decreases m,
{
    lemma_joined_len(n, pairs, m);
    lemma_joined_len(n, pairs, m - 1);
    assert(0 <= pairs[i].0 < n && 0 <= pairs[i].1 < n);
    if i < m - 1 {
        joined_pairs_share_label(n, pairs, m - 1, i);
    }
}

pub proof fn lemma_joined_len(n: nat, pairs: Seq<(int, int)>, m: int)
    ensures
        joined_labels(n, pairs, m).len() == n,
    decreases m,
{
    if m > 0 {
        lemma_joined_len(n, pairs, m - 1);
    }
}

} // verus!
