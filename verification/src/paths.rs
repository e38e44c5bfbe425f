//! Paths as text, with `/` between their components.
use vstd::prelude::*;

use crate::text::{chars_of, string_of};

verus! {

/// `base` with `part` adjoined. An absolute `part` stands alone.
pub open spec fn joined(base: Seq<char>, part: Seq<char>) -> Seq<char> {
    if part.len() > 0 && part[0] == '/' {
        part
    } else if base.len() == 0 || base.last() == '/' {
        base + part
    } else {
        base.push('/') + part
    }
}

/// The text begins with a component that is a single dot.
pub open spec fn begins_with_dot(text: Seq<char>) -> bool {
    text.len() > 0 && text[0] == '.' && (text.len() == 1 || text[1] == '/')
}

/// The text without the separators and the single dots that it begins with.
pub open spec fn body(text: Seq<char>) -> Seq<char>
    decreases text.len(),
{
    if text.len() > 0 && (text[0] == '/' || begins_with_dot(text)) {
        body(text.skip(1))
    } else {
        text
    }
}

/// The text up to its first separator.
pub open spec fn first_part(text: Seq<char>) -> Seq<char>
    decreases text.len(),
{
    if text.len() == 0 || text[0] == '/' {
        Seq::empty()
    } else {
        seq![text[0]] + first_part(text.skip(1))
    }
}

/// The text from its first separator on.
pub open spec fn after_part(text: Seq<char>) -> Seq<char> {
    text.skip(first_part(text).len() as int)
}

/// The text without the separators and the single dots that it ends with.
pub open spec fn trimmed(text: Seq<char>) -> Seq<char>
    decreases text.len(),
{
    if text.len() > 0 && (text.last() == '/' || (text.last() == '.' && (text.len() == 1
        || text[text.len() - 2] == '/'))) {
        trimmed(text.drop_last())
    } else {
        text
    }
}

/// What is left of `path` once the components of `root` are taken off its front.
pub open spec fn stripped(path: Seq<char>, root: Seq<char>) -> Option<Seq<char>>
    decreases root.len(),
{
    let inner_root = body(root);
    let inner_path = body(path);
    if inner_root.len() == 0 {
        Some(trimmed(inner_path))
    } else if inner_path.len() == 0 || first_part(inner_path) != first_part(inner_root) {
        None
    } else {
        proof {
            lemma_body_shorter(root);
            lemma_part_shorter(inner_root);
        }
        stripped(after_part(inner_path), after_part(inner_root))
    }
}

/// How a path begins.
pub enum Start {
    /// With a separator.
    Root,
    /// With a single dot.
    Here,
    /// With a name, or not at all.
    Plain,
}

/// How a path begins.
pub open spec fn start_of(path: Seq<char>) -> Start {
    if path.len() > 0 && path[0] == '/' {
        Start::Root
    } else if begins_with_dot(path) {
        Start::Here
    } else {
        Start::Plain
    }
}

/// The path behind a separator or a single dot that it begins with.
pub open spec fn after_start(path: Seq<char>) -> Seq<char> {
    if start_of(path) is Plain {
        path
    } else {
        path.skip(1)
    }
}

/// The part of `path` that leads there from `root`, if `path` lies under `root`. Repeated
/// separators, and single dots within a path, make no difference.
pub open spec fn relative_to(path: Seq<char>, root: Seq<char>) -> Option<Seq<char>> {
    if root.len() == 0 {
        if start_of(path) is Plain {
            Some(trimmed(path))
        } else {
            Some(seq![path[0]] + trimmed(path.skip(1)))
        }
    } else if start_of(path) != start_of(root) {
        None
    } else {
        stripped(after_start(path), after_start(root))
    }
}

pub proof fn lemma_body_shorter(text: Seq<char>)
    ensures
        body(text).len() <= text.len(),
        body(text).len() > 0 ==> body(text)[0] != '/',
    decreases text.len(),
{
    if text.len() > 0 && (text[0] == '/' || begins_with_dot(text)) {
        lemma_body_shorter(text.skip(1));
    }
}

pub proof fn lemma_part_shorter(text: Seq<char>)
    ensures
        first_part(text).len() <= text.len(),
        text.len() > 0 && text[0] != '/' ==> first_part(text).len() > 0,
        first_part(text) == text.take(first_part(text).len() as int),
    decreases text.len(),
{
    if text.len() > 0 && text[0] != '/' {
        lemma_part_shorter(text.skip(1));
        assert(first_part(text) =~= text.take(first_part(text).len() as int)) by {
            let rest = text.skip(1);
            assert forall|i: int| 0 <= i < first_part(text).len() implies first_part(text)[i]
                == text[i] by {
                if i > 0 {
                    assert(first_part(rest)[i - 1] == rest.take(
                        first_part(rest).len() as int,
                    )[i - 1]);
                }
            }
        }
    } else {
        assert(first_part(text) =~= text.take(0));
    }
}

/// Joins two paths.
pub fn join(base: &str, part: &str) -> (path: String)
    ensures
        path@ == joined(base@, part@),
{
    let mut chars = chars_of(base);
    let mut tail = chars_of(part);
    if tail.len() > 0 && tail[0] == '/' {
        return string_of(&tail);
    }
    if chars.len() > 0 && chars[chars.len() - 1] != '/' {
        chars.push('/');
    }
    chars.append(&mut tail);
    assert(chars@ =~= joined(base@, part@));
    string_of(&chars)
}

/// Where the body of the text that begins at `at` begins.
fn body_start(chars: &Vec<char>, at: usize) -> (start: usize)
    requires
        at <= chars@.len(),
    ensures
        at <= start <= chars@.len(),
        chars@.skip(start as int) == body(chars@.skip(at as int)),
{
    let mut start: usize = at;
    while start < chars.len() && (chars[start] == '/' || (chars[start] == '.' && (start + 1
        == chars.len() || chars[start + 1] == '/')))
        invariant
            at <= start <= chars@.len(),
            body(chars@.skip(start as int)) == body(chars@.skip(at as int)),
        decreases chars@.len() - start,
    {
        assert(chars@.skip(start as int).skip(1) =~= chars@.skip(start + 1));
        start = start + 1;
    }
    start
}

/// Where the first part of the text that begins at `at` ends.
fn part_end(chars: &Vec<char>, at: usize) -> (end: usize)
    requires
        at <= chars@.len(),
    ensures
        at <= end <= chars@.len(),
        end - at == first_part(chars@.skip(at as int)).len(),
        first_part(chars@.skip(at as int)) == chars@.subrange(at as int, end as int),
        chars@.skip(end as int) == after_part(chars@.skip(at as int)),
{
    let mut end: usize = at;
    let ghost text = chars@.skip(at as int);
    while end < chars.len() && chars[end] != '/'
        invariant
            at <= end <= chars@.len(),
            text == chars@.skip(at as int),
            end - at + first_part(chars@.skip(end as int)).len() == first_part(text).len(),
        decreases chars@.len() - end,
    {
        assert(chars@.skip(end as int).skip(1) =~= chars@.skip(end + 1));
        end = end + 1;
    }
    proof {
        lemma_part_shorter(text);
        assert(text.take(end - at) =~= chars@.subrange(at as int, end as int));
        assert(text.skip(end - at) =~= chars@.skip(end as int));
    }
    end
}

fn ranges_equal(a: &Vec<char>, a_start: usize, a_end: usize, b: &Vec<char>, b_start: usize, b_end: usize) -> (equal:
    bool)
    requires
        a_start <= a_end <= a@.len(),
        b_start <= b_end <= b@.len(),
    ensures
        equal == (a@.subrange(a_start as int, a_end as int) == b@.subrange(
            b_start as int,
            b_end as int,
        )),
{
    let ghost left = a@.subrange(a_start as int, a_end as int);
    let ghost right = b@.subrange(b_start as int, b_end as int);
    if a_end - a_start != b_end - b_start {
        assert(left.len() != right.len());
        return false;
    }
    let count: usize = a_end - a_start;
    let mut i: usize = 0;
    while i < count
        invariant
            a_start <= a_end <= a@.len(),
            b_start <= b_end <= b@.len(),
            count == a_end - a_start,
            count == b_end - b_start,
            left == a@.subrange(a_start as int, a_end as int),
            right == b@.subrange(b_start as int, b_end as int),
            i <= count,
            forall|k: int| 0 <= k < i ==> left[k] == right[k],
        decreases count - i,
    {
        if a[a_start + i] != b[b_start + i] {
            assert(left[i as int] != right[i as int]);
            return false;
        }
        i = i + 1;
    }
    assert(left =~= right);
    true
}

/// Where the trimmed text from `from` on ends.
fn trimmed_end(chars: &Vec<char>, from: usize) -> (end: usize)
    requires
        from <= chars@.len(),
    ensures
        from <= end <= chars@.len(),
        chars@.subrange(from as int, end as int) == trimmed(chars@.skip(from as int)),
{
    let mut end: usize = chars.len();
    assert(chars@.subrange(from as int, end as int) =~= chars@.skip(from as int));
    while end > from && (chars[end - 1] == '/' || (chars[end - 1] == '.' && (end - 1 == from
        || chars[end - 2] == '/')))
        invariant
            from <= end <= chars@.len(),
            trimmed(chars@.subrange(from as int, end as int)) == trimmed(chars@.skip(from as int)),
        decreases end,
    {
        assert(chars@.subrange(from as int, end as int).drop_last() =~= chars@.subrange(
            from as int,
            end - 1,
        ));
        end = end - 1;
    }
    end
}

fn copy_range(chars: &Vec<char>, start: usize, end: usize) -> (part: Vec<char>)
    requires
        start <= end <= chars@.len(),
    ensures
        part@ == chars@.subrange(start as int, end as int),
{
    let mut part: Vec<char> = Vec::new();
    let mut i: usize = start;
    while i < end
        invariant
            start <= i <= end <= chars@.len(),
            part@ == chars@.subrange(start as int, i as int),
        decreases end - i,
    {
        part.push(chars[i]);
        i = i + 1;
        assert(part@ =~= chars@.subrange(start as int, i as int));
    }
    part
}

fn strip(path: &Vec<char>, path_start: usize, root: &Vec<char>, root_start: usize) -> (rest: Option<
    Vec<char>,
>)
    requires
        path_start <= path@.len(),
        root_start <= root@.len(),
    ensures
        match rest {
            Some(rest) => stripped(
                path@.skip(path_start as int),
                root@.skip(root_start as int),
            ) == Some(rest@),
            None => stripped(path@.skip(path_start as int), root@.skip(root_start as int)) is None,
        },
{
    let mut i: usize = path_start;
    let mut j: usize = root_start;
    loop
        invariant
            i <= path@.len(),
            j <= root@.len(),
            stripped(path@.skip(i as int), root@.skip(j as int)) == stripped(
                path@.skip(path_start as int),
                root@.skip(root_start as int),
            ),
        decreases root@.len() - j,
    {
        let p: usize = body_start(path, i);
        let r: usize = body_start(root, j);
        proof {
            lemma_body_shorter(root@.skip(j as int));
        }
        if r == root.len() {
            let end = trimmed_end(path, p);
            return Some(copy_range(path, p, end));
        }
        if p == path.len() {
            return None;
        }
        let p_end: usize = part_end(path, p);
        let r_end: usize = part_end(root, r);
        if !ranges_equal(path, p, p_end, root, r, r_end) {
            return None;
        }
        proof {
            lemma_part_shorter(root@.skip(r as int));
        }
        i = p_end;
        j = r_end;
    }
}

fn start(chars: &Vec<char>) -> (start: Start)
    ensures
        start == start_of(chars@),
{
    if chars.len() > 0 && chars[0] == '/' {
        Start::Root
    } else if chars.len() > 0 && chars[0] == '.' && (chars.len() == 1 || chars[1] == '/') {
        Start::Here
    } else {
        Start::Plain
    }
}

fn same_start(a: &Start, b: &Start) -> (same: bool)
    ensures
        same == (*a == *b),
{
    match (a, b) {
        (Start::Root, Start::Root) => true,
        (Start::Here, Start::Here) => true,
        (Start::Plain, Start::Plain) => true,
        _ => false,
    }
}

/// The path from `root` to `path`, if `path` lies under `root`.
pub fn strip_prefix(path: &str, root: &str) -> (relative: Option<String>)
    ensures
        match relative {
            Some(relative) => relative_to(path@, root@) == Some(relative@),
            None => relative_to(path@, root@) is None,
        },
{
    let path_chars = chars_of(path);
    let root_chars = chars_of(root);
    let path_start = start(&path_chars);
    if root_chars.len() == 0 {
        let from: usize = match path_start {
            Start::Plain => 0,
            _ => 1,
        };
        let end = trimmed_end(&path_chars, from);
        let rest = copy_range(&path_chars, 0, end);
        proof {
            assert(path@.skip(0) =~= path@);
            if from == 1 {
                assert(rest@ =~= seq![path@[0]] + path@.subrange(1, end as int));
            }
        }
        return Some(string_of(&rest));
    }
    let root_start = start(&root_chars);
    if !same_start(&path_start, &root_start) {
        return None;
    }
    let from: usize = match path_start {
        Start::Plain => 0,
        _ => 1,
    };
    proof {
        assert(path@.skip(0) =~= path@);
        assert(root@.skip(0) =~= root@);
    }
    match strip(&path_chars, from, &root_chars, from) {
        Some(rest) => Some(string_of(&rest)),
        None => None,
    }
}

/// Whether `path` lies under `root`.
pub fn is_within(path: &str, root: &str) -> (within: bool)
    ensures
        within == relative_to(path@, root@) is Some,
{
    strip_prefix(path, root).is_some()
}

proof fn lemma_first_part_add(text: Seq<char>, tail: Seq<char>)
    requires
        text.len() > 0 && text.last() == '/' || tail.len() > 0 && tail[0] == '/',
    ensures
        first_part(text + tail) == first_part(text),
    decreases text.len(),
{
    if text.len() == 0 {
        assert(text + tail =~= tail);
    } else if text[0] != '/' {
        assert((text + tail).skip(1) =~= text.skip(1) + tail);
        if text.len() > 1 {
            assert(text.skip(1).last() == text.last());
        }
        lemma_first_part_add(text.skip(1), tail);
    }
}

/// Taking `root` off a text that continues it leaves what continues it.
proof fn lemma_strip_own(root: Seq<char>, tail: Seq<char>)
    requires
        root.len() == 0 || root.last() == '/' || tail.len() > 0 && tail[0] == '/',
    ensures
        stripped(root + tail, root) == Some(trimmed(body(tail))),
    decreases root.len(),
{
    let path = root + tail;
    if root.len() == 0 {
        assert(path =~= tail);
    } else if root[0] == '/' || begins_with_dot(root) {
        assert(path[0] == root[0]);
        assert(path[0] == '/' || begins_with_dot(path));
        assert(path.skip(1) =~= root.skip(1) + tail);
        if root.len() > 1 {
            assert(root.skip(1).last() == root.last());
        }
        lemma_strip_own(root.skip(1), tail);
    } else {
        assert(path[0] == root[0]);
        assert(!begins_with_dot(path));
        assert(body(path) == path && body(root) == root);
        lemma_first_part_add(root, tail);
        lemma_part_shorter(root);
        let n = first_part(root).len() as int;
        assert(after_part(path) =~= after_part(root) + tail);
        if after_part(root).len() > 0 {
            assert(after_part(root).last() == root.last());
        }
        lemma_strip_own(after_part(root), tail);
    }
}

/// A path joined to a root leads from that root to where it led before.
pub proof fn joined_path_is_relative_again(root: Seq<char>, part: Seq<char>)
    requires
        body(part) == part,
    ensures
        relative_to(joined(root, part), root) == Some(trimmed(part)),
{
    let path = joined(root, part);
    lemma_body_shorter(part);
    if root.len() == 0 {
        assert(path =~= part);
        assert(start_of(part) is Plain) by {
            if part.len() > 0 {
                lemma_body_shorter(part.skip(1));
            }
        }
    } else {
        let tail = if root.last() == '/' {
            part
        } else {
            seq!['/'] + part
        };
        assert(path =~= root + tail);
        assert(path[0] == root[0]);
        if root.len() > 1 {
            assert(path[1] == root[1]);
        }
        assert(start_of(path) == start_of(root));
        assert(body(tail) == body(part)) by {
            if root.last() != '/' {
                assert(tail.skip(1) =~= part);
            }
        }
        if start_of(root) is Plain {
            lemma_strip_own(root, tail);
        } else {
            assert(path.skip(1) =~= root.skip(1) + tail);
            if root.len() > 1 {
                assert(root.skip(1).last() == root.last());
            }
            if root.len() == 1 && root[0] == '/' {
                assert(root.skip(1) =~= Seq::empty());
            }
            lemma_strip_own(root.skip(1), tail);
        }
    }
}

proof fn lemma_first_part_name(name: Seq<char>, tail: Seq<char>)
    requires
        !name.contains('/'),
        tail.len() == 0 || tail[0] == '/',
    ensures
        first_part(name + tail) == name,
    decreases name.len(),
{
    let text = name + tail;
    if name.len() == 0 {
        assert(text =~= tail);
    } else {
        let rest = name.skip(1);
        assert(name[0] != '/') by {
            if name[0] == '/' {
                assert(name.contains('/'));
            }
        }
        assert(!rest.contains('/')) by {
            if rest.contains('/') {
                let i = choose|i: int| 0 <= i < rest.len() && rest[i] == '/';
                assert(name[i + 1] == '/');
            }
        }
        lemma_first_part_name(rest, tail);
        assert(text.skip(1) =~= rest + tail);
        assert(seq![name[0]] + rest =~= name);
    }
}

proof fn lemma_strip_other(base: Seq<char>, x: Seq<char>, y: Seq<char>)
    requires
        base.len() == 0 || base.last() == '/',
        x.len() > 0 && body(x) == x,
        y.len() > 0 && body(y) == y,
        first_part(x) != first_part(y),
    ensures
        stripped(base + x, base + y) is None,
    decreases base.len(),
{
    let path = base + x;
    let root = base + y;
    if base.len() == 0 {
        assert(path =~= x);
        assert(root =~= y);
    } else if base[0] == '/' || begins_with_dot(base) {
        assert(path[0] == base[0] && root[0] == base[0]);
        assert(path[0] == '/' || begins_with_dot(path));
        assert(root[0] == '/' || begins_with_dot(root));
        assert(path.skip(1) =~= base.skip(1) + x);
        assert(root.skip(1) =~= base.skip(1) + y);
        if base.len() > 1 {
            assert(base.skip(1).last() == base.last());
        }
        lemma_strip_other(base.skip(1), x, y);
    } else {
        assert(path[0] == base[0] && root[0] == base[0]);
        assert(base.len() > 1);
        assert(path[1] == base[1] && root[1] == base[1]);
        assert(body(path) == path && body(root) == root);
        lemma_first_part_add(base, x);
        lemma_first_part_add(base, y);
        lemma_part_shorter(base);
        assert(after_part(path) =~= after_part(base) + x);
        assert(after_part(root) =~= after_part(base) + y);
        if after_part(base).len() > 0 {
            assert(after_part(base).last() == base.last());
        }
        lemma_strip_other(after_part(base), x, y);
    }
}

/// What lies beside a directory does not lie in it, however the names begin.
pub proof fn neighbours_are_not_within(
    base: Seq<char>,
    dir: Seq<char>,
    other: Seq<char>,
    tail: Seq<char>,
)
    requires
        is_name(dir),
        is_name(other),
        dir != other,
        tail.len() == 0 || tail[0] == '/',
    ensures
        relative_to(base + seq!['/'] + (other + tail), base + seq!['/'] + dir) is None,
{
    let before = base + seq!['/'];
    let x = other + tail;
    let path = before + x;
    let root = before + dir;
    lemma_first_part_name(other, tail);
    lemma_first_part_name(dir, Seq::empty());
    assert(dir + Seq::<char>::empty() =~= dir);
    assert(!other.contains('/') && !dir.contains('/'));
    assert(other[0] != '/' && dir[0] != '/') by {
        assert(other[0] == '/' ==> other.contains('/'));
        assert(dir[0] == '/' ==> dir.contains('/'));
    }
    assert(!begins_with_dot(x)) by {
        if begins_with_dot(x) {
            if other.len() == 1 {
                assert(other =~= seq!['.']);
            } else {
                assert(other[1] == '/');
                assert(other.contains('/'));
            }
        }
    }
    assert(!begins_with_dot(dir)) by {
        if begins_with_dot(dir) {
            if dir.len() == 1 {
                assert(dir =~= seq!['.']);
            } else {
                assert(dir.contains('/'));
            }
        }
    }
    assert(x[0] == other[0]);
    assert(body(x) == x && body(dir) == dir);
    assert(path[0] == before[0] && root[0] == before[0]);
    if before.len() > 1 {
        assert(path[1] == before[1] && root[1] == before[1]);
    }
    assert(start_of(path) == start_of(root));
    assert(before.last() == '/');
    if start_of(path) is Plain {
        lemma_strip_other(before, x, dir);
    } else {
        assert(path.skip(1) =~= before.skip(1) + x);
        assert(root.skip(1) =~= before.skip(1) + dir);
        if before.len() > 1 {
            assert(before.skip(1).last() == before.last());
        }
        lemma_strip_other(before.skip(1), x, dir);
    }
}

/// The text without its last part, and without the separators before that.
pub open spec fn without_last(text: Seq<char>) -> Seq<char>
    decreases text.len(),
{
    if text.len() == 0 || text.last() == '/' {
        trimmed(text)
    } else {
        without_last(text.drop_last())
    }
}

/// The directory that a path lies in. A root, and an empty path, lie in none.
pub open spec fn parent_of(path: Seq<char>) -> Option<Seq<char>> {
    let inner = trimmed(after_start(path));
    match start_of(path) {
        Start::Plain => if inner.len() == 0 {
            None
        } else {
            Some(without_last(inner))
        },
        Start::Root => if inner.len() == 0 {
            None
        } else {
            Some(seq!['/'] + without_last(inner))
        },
        Start::Here => if inner.len() == 0 {
            Some(Seq::empty())
        } else {
            Some(seq!['.'] + without_last(inner))
        },
    }
}

proof fn lemma_trimmed_shorter(text: Seq<char>)
    ensures
        trimmed(text).len() <= text.len(),
        trimmed(text).len() > 0 ==> trimmed(text).last() != '/',
    decreases text.len(),
{
    if text.len() > 0 && (text.last() == '/' || (text.last() == '.' && (text.len() == 1
        || text[text.len() - 2] == '/'))) {
        lemma_trimmed_shorter(text.drop_last());
    }
}

proof fn lemma_without_last_shorter(text: Seq<char>)
    ensures
        without_last(text).len() <= text.len(),
        text.len() > 0 && text.last() != '/' ==> without_last(text).len() < text.len(),
    decreases text.len(),
{
    if text.len() == 0 || text.last() == '/' {
        lemma_trimmed_shorter(text);
    } else {
        lemma_without_last_shorter(text.drop_last());
    }
}

/// The directory that a path lies in is shorter than the path.
pub proof fn lemma_parent_shorter(path: Seq<char>)
    ensures
        parent_of(path) matches Some(parent) ==> parent.len() < path.len(),
{
    let inner = trimmed(after_start(path));
    lemma_trimmed_shorter(after_start(path));
    lemma_without_last_shorter(inner);
}

/// The path without the separators and the single dots that it ends with.
pub open spec fn neat(path: Seq<char>) -> Seq<char> {
    if start_of(path) is Plain {
        trimmed(path)
    } else {
        seq![path[0]] + trimmed(path.skip(1))
    }
}

/// The text is the name of something in a directory: one part, and not a single dot.
pub open spec fn is_name(name: Seq<char>) -> bool {
    &&& name.len() > 0
    &&& !name.contains('/')
    &&& name != seq!['.']
}

/// Taking the last part off leaves what is before it.
proof fn lemma_without_name(before: Seq<char>, name: Seq<char>)
    requires
        before.len() == 0 || before.last() == '/',
        !name.contains('/'),
    ensures
        without_last(before + name) == trimmed(before),
    decreases name.len(),
{
    let text = before + name;
    if name.len() == 0 {
        assert(text =~= before);
    } else {
        assert(text.last() == name.last());
        assert(name.contains(name[name.len() - 1]));
        assert(text.drop_last() =~= before + name.drop_last());
        assert forall|c: char| name.drop_last().contains(c) implies name.contains(c) by {
            let k = choose|k: int| 0 <= k < name.drop_last().len() && name.drop_last()[k] == c;
            assert(name[k] == c);
        }
        lemma_without_name(before, name.drop_last());
    }
}

/// What is joined to a directory lies in that directory.
pub proof fn joined_name_lies_in_its_base(base: Seq<char>, name: Seq<char>)
    requires
        is_name(name),
    ensures
        parent_of(joined(base, name)) == Some(neat(base)),
{
    let path = joined(base, name);
    assert(name.contains(name[0]));
    assert(name.contains(name[name.len() - 1]));
    if name.len() > 1 {
        assert(name.contains(name[1]));
        assert(name.contains(name[name.len() - 2]));
    } else {
        assert(name[0] != '.') by {
            if name[0] == '.' {
                assert(name =~= seq!['.']);
            }
        }
    }
    let rest = after_start(base);
    let before = if base.len() == 0 || base.last() == '/' {
        rest
    } else {
        rest.push('/')
    };
    if base.len() == 0 {
        assert(path =~= name);
        assert(before + name =~= name);
    } else {
        assert(path[0] == base[0]);
        if base.len() > 1 {
            assert(path[1] == base[1]);
        }
        assert(start_of(path) == start_of(base));
        assert(after_start(path) =~= before + name);
        if base.last() != '/' {
            assert(before.drop_last() =~= rest);
        } else if rest.len() > 0 {
            assert(rest.last() == base.last());
        }
    }
    let inner = before + name;
    assert(inner.last() == name.last());
    if inner.len() > 1 && name.len() > 1 {
        assert(inner[inner.len() - 2] == name[name.len() - 2]);
    }
    assert(trimmed(inner) == inner);
    lemma_without_name(before, name);
}

/// The path itself, the directory it lies in, and so on up.
pub open spec fn ancestors_of(path: Seq<char>) -> Seq<Seq<char>>
    decreases path.len(),
{
    match parent_of(path) {
        Some(parent) => {
            proof {
                lemma_parent_shorter(path);
            }
            seq![path] + ancestors_of(parent)
        },
        None => seq![path],
    }
}

fn without_last_end(chars: &Vec<char>, from: usize, end: usize) -> (cut: usize)
    requires
        from <= end <= chars@.len(),
    ensures
        from <= cut <= end,
        chars@.subrange(from as int, cut as int) == without_last(
            chars@.subrange(from as int, end as int),
        ),
{
    let mut cut: usize = end;
    let ghost whole = chars@.subrange(from as int, end as int);
    while cut > from && chars[cut - 1] != '/'
        invariant
            from <= cut <= end <= chars@.len(),
            without_last(chars@.subrange(from as int, cut as int)) == without_last(whole),
        decreases cut,
    {
        assert(chars@.subrange(from as int, cut as int).drop_last() =~= chars@.subrange(
            from as int,
            cut - 1,
        ));
        cut = cut - 1;
    }
    let part = copy_range(chars, 0, cut);
    let kept = trimmed_end(&part, from);
    proof {
        assert(part@.skip(from as int) =~= chars@.subrange(from as int, cut as int));
        assert(part@.subrange(from as int, kept as int) =~= chars@.subrange(
            from as int,
            kept as int,
        ));
    }
    kept
}

/// The directory that a path lies in.
pub fn parent(path: &str) -> (parent: Option<String>)
    ensures
        match parent {
            Some(parent) => parent_of(path@) == Some(parent@),
            None => parent_of(path@) is None,
        },
{
    let chars = chars_of(path);
    let start = start(&chars);
    let from: usize = match start {
        Start::Plain => 0,
        _ => 1,
    };
    let end = trimmed_end(&chars, from);
    let ghost inner = trimmed(after_start(path@));
    assert(path@.skip(0) =~= path@);
    assert(chars@.subrange(from as int, end as int) == inner);
    if end == from {
        return match start {
            Start::Here => {
                let none: Vec<char> = Vec::new();
                assert(none@ =~= Seq::empty());
                Some(string_of(&none))
            },
            _ => None,
        };
    }
    let cut = without_last_end(&chars, from, end);
    let kept = copy_range(&chars, 0, cut);
    proof {
        match start_of(path@) {
            Start::Plain => {
                assert(kept@ =~= without_last(inner));
            },
            Start::Root => {
                assert(kept@ =~= seq!['/'] + without_last(inner));
            },
            Start::Here => {
                assert(kept@ =~= seq!['.'] + without_last(inner));
            },
        }
    }
    Some(string_of(&kept))
}

/// The path itself, the directory it lies in, and so on up.
pub fn ancestors(path: &str) -> (paths: Vec<String>)
    ensures
        paths@.map_values(|text: String| text@) == ancestors_of(path@),
{
    let mut paths: Vec<String> = Vec::new();
    let mut current: String = path.to_owned();
    let ghost whole = ancestors_of(path@);
    loop
        invariant
            whole == ancestors_of(path@),
            paths@.map_values(|text: String| text@) + ancestors_of(current@) == whole,
        decreases current@.len(),
    {
        let up = parent(current.as_str());
        let ghost here = current@;
        let ghost before = paths@.map_values(|text: String| text@);
        proof {
            lemma_parent_shorter(here);
        }
        paths.push(current);
        assert(paths@.map_values(|text: String| text@) =~= before.push(here));
        match up {
            Some(next) => {
                assert(before + ancestors_of(here) =~= before.push(here) + ancestors_of(next@));
                current = next;
            },
            None => {
                assert(before + ancestors_of(here) =~= before.push(here));
                return paths;
            },
        }
    }
}

/// The ancestors of a path begin with it and climb to the top: each is the parent of the one before,
/// and the last has none.
pub proof fn ancestors_climb_to_the_top(path: Seq<char>)
    ensures
        ancestors_of(path).len() > 0,
        ancestors_of(path)[0] == path,
        parent_of(ancestors_of(path).last()) is None,
        forall|i: int|
            0 <= i < ancestors_of(path).len() - 1 ==> parent_of(#[trigger] ancestors_of(path)[i])
                == Some(ancestors_of(path)[i + 1]),
    decreases path.len(),
{
    let all = ancestors_of(path);
    if let Some(parent) = parent_of(path) {
        lemma_parent_shorter(path);
        ancestors_climb_to_the_top(parent);
        let rest = ancestors_of(parent);
        assert(all == seq![path] + rest);
        assert(all.last() == rest.last());
        assert forall|i: int| 0 <= i < all.len() - 1 implies parent_of(#[trigger] all[i]) == Some(
            all[i + 1],
        ) by {
            if i > 0 {
                assert(all[i] == rest[i - 1]);
                assert(all[i + 1] == rest[i]);
            } else {
                assert(all[1] == rest[0]);
            }
        }
    }
}

/// Joining puts one separator between two paths, none in front of the first; a path from the top
/// stands for itself.
pub proof fn paths_are_joined_with_one_separator(base: Seq<char>, part: Seq<char>)
    ensures
        part.len() > 0 && part[0] == '/' ==> joined(base, part) == part,
        part.len() == 0 || part[0] != '/' ==> {
            &&& base.len() == 0 ==> joined(base, part) == part
            &&& joined(base.push('/'), part) == base.push('/') + part
            &&& base.len() > 0 && base.last() != '/' ==> joined(base, part) == base + (seq!['/']
                + part)
        },
{
    assert(base.len() == 0 ==> base + part =~= part);
    assert(base.push('/') + part =~= base + (seq!['/'] + part));
}

} // verus!
