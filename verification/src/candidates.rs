//! Window seeds, and the candidate pairs that equal seeds give rise to.
use std::collections::HashSet;
use vstd::prelude::*;

use rayon::slice::ParallelSliceMut;

use crate::matching::Candidate;
use crate::model::SourceFile;
use crate::sort::{sort_by_keys, sorted_order};

verus! {

/// From this many elements on, sorting goes through buckets.
const BUCKET_SORT_MIN: usize = 8192;

/// How many elements a bucket should hold.
const BUCKET_TARGET: usize = 8192;

const BUCKET_MIX: u64 = 0x9E37_79B9_7F4A_7C15;

/// Whether a signature takes part in detection.
pub open spec fn is_allowed(allowed: Option<Set<u64>>, signature: u64) -> bool {
    allowed matches Some(set) ==> set.contains(signature)
}

/// The seeds of the first `n` windows of a file: signature, file and window start.
pub open spec fn file_seeds(
    signatures: Seq<u64>,
    file: int,
    allowed: Option<Set<u64>>,
    n: int,
) -> Seq<(u64, u32, u32)>
    decreases n,
{
    if n <= 0 {
        Seq::empty()
    } else {
        let seeds = file_seeds(signatures, file, allowed, n - 1);
        if is_allowed(allowed, signatures[n - 1]) {
            seeds.push((signatures[n - 1], file as u32, (n - 1) as u32))
        } else {
            seeds
        }
    }
}

/// The seeds of the first `n` files.
pub open spec fn all_seeds(
    files: Seq<&SourceFile>,
    window: int,
    parameterize_literals: bool,
    allowed: Option<Set<u64>>,
    n: int,
) -> Seq<(u64, u32, u32)>
    decreases n,
{
    if n <= 0 {
        Seq::empty()
    } else {
        let signatures = crate::encode::signatures_of(
            files[n - 1].hashes@,
            window,
            parameterize_literals,
        );
        all_seeds(files, window, parameterize_literals, allowed, n - 1) + file_seeds(
            signatures,
            n - 1,
            allowed,
            signatures.len() as int,
        )
    }
}

/// The set that an optional hash set stands for.
pub open spec fn allowed_view(allowed: Option<&HashSet<u64>>) -> Option<Set<u64>> {
    match allowed {
        Some(set) => Some(set@),
        None => None,
    }
}

/// The seeds of one file from its signatures.
pub fn collect_seeds(signatures: &[u64], file: u32, allowed: Option<&HashSet<u64>>) -> (seeds: Vec<
    (u64, u32, u32),
>)
    requires
        signatures@.len() <= u32::MAX,
    ensures
        seeds@ == file_seeds(
            signatures@,
            file as int,
            allowed_view(allowed),
            signatures@.len() as int,
        ),
{
    broadcast use vstd::std_specs::hash::group_hash_axioms;

    let mut seeds: Vec<(u64, u32, u32)> = Vec::new();
    let mut start: usize = 0;
    while start < signatures.len()
        invariant
            signatures@.len() <= u32::MAX,
            start <= signatures@.len(),
            seeds@ == file_seeds(signatures@, file as int, allowed_view(allowed), start as int),
        decreases signatures@.len() - start,
    {
        let signature: u64 = signatures[start];
        let wanted: bool = match allowed {
            Some(set) => set.contains(&signature),
            None => true,
        };
        if wanted {
            seeds.push((signature, file, start as u32));
        }
        start = start + 1;
    }
    seeds
}

/// Sort key of a seed: by signature, then file, then window start.
pub open spec fn seed_key(seed: (u64, u32, u32)) -> u128 {
    (seed.0 * 0x1_0000_0000_0000_0000 + seed.1 * 0x1_0000_0000 + seed.2) as u128
}

/// The order of seeds.
pub open spec fn by_seed() -> spec_fn((u64, u32, u32)) -> u128 {
    |seed: (u64, u32, u32)| seed_key(seed)
}

/// Calls rayon's `ParallelSliceMut::par_sort_unstable` on seeds: the elements end up in ascending
/// lexicographic order. Equal seeds cannot be told apart, so the outcome is that of a stable sort.
#[verifier::external_body]
fn par_sort_seeds(seeds: &mut Vec<(u64, u32, u32)>)
    ensures
        final(seeds)@ == crate::sort::sorted_with(old(seeds)@, by_seed()),
{
    seeds.par_sort_unstable();
}

/// Sort key of a candidate: by first file, then by second file.
pub open spec fn pair_key_of(candidate: Candidate) -> u128 {
    (candidate.file_a * 0x1_0000_0000 + candidate.file_b) as u128
}

/// The order of candidates by file pair.
pub open spec fn by_pair() -> spec_fn(Candidate) -> u128 {
    |candidate: Candidate| pair_key_of(candidate)
}

/// Calls rayon's `ParallelSliceMut::par_sort_by_key` on candidates with the pair of files as key:
/// a stable sort, so candidates of the same two files keep their order.
#[verifier::external_body]
fn par_sort_candidates(candidates: &mut Vec<Candidate>)
    ensures
        final(candidates)@ == crate::sort::sorted_with(old(candidates)@, by_pair()),
{
    candidates.par_sort_by_key(|candidate| (candidate.file_a, candidate.file_b));
}

/// The bucket of a key: its `bits` top bits.
pub open spec fn bucket_index(key: u64, bits: u32) -> int {
    (key >> ((64 - bits) as u64)) as int
}

/// The elements of a bucket.
pub open spec fn in_bucket<T>(hash: spec_fn(T) -> u64, bits: u32, bucket: int) -> spec_fn(T) -> bool {
    |item: T| bucket_index(hash(item), bits) == bucket
}

/// The number of buckets for `len` elements, as a power of two: enough for the target size,
/// within limits.
fn bucket_bits(len: usize) -> (bits: u32)
    ensures
        4 <= bits <= 16,
        bits == 16 || len / BUCKET_TARGET <= (1u32 << bits),
        bits == 4 || len / BUCKET_TARGET > (1u32 << ((bits - 1) as u32)),
{
    let target: usize = len / BUCKET_TARGET;
    let mut bits: u32 = 4;
    proof {
        lemma_power(4);
    }
    while bits < 16 && ((1u32 << bits) as usize) < target
        invariant
            4 <= bits <= 16,
            target == len / BUCKET_TARGET,
            bits == 4 || target > (1u32 << ((bits - 1) as u32)),
        decreases 16 - bits,
    {
        proof {
            lemma_power(bits);
        }
        bits = bits + 1;
    }
    bits
}

proof fn lemma_power(bits: u32)
    requires
        1 <= bits <= 16,
    ensures
        2 <= (1u32 << bits) <= 65536,
{
    assert(1 <= bits <= 16 ==> 2 <= (1u32 << bits) && (1u32 << bits) <= 65536) by (bit_vector);
}

proof fn lemma_bucket_index(key: u64, bits: u32)
    requires
        1 <= bits <= 16,
    ensures
        0 <= bucket_index(key, bits) < (1u32 << bits),
{
    let shift = (64 - bits) as u64;
    assert(1 <= bits <= 16 && shift == 64 - bits ==> (key >> shift) < (1u32 << bits)) by (bit_vector);
}

proof fn lemma_bucket_monotonic(a: u64, b: u64, bits: u32)
    requires
        1 <= bits <= 16,
        bucket_index(a, bits) < bucket_index(b, bits),
    ensures
        a < b,
{
    let shift = (64 - bits) as u64;
    assert((a >> shift) < (b >> shift) ==> a < b) by (bit_vector);
}

/// The sum of the first `n` numbers.
spec fn sum_upto(counts: Seq<usize>, n: int) -> int
    decreases n,
{
    if n <= 0 {
        0
    } else {
        sum_upto(counts, n - 1) + counts[n - 1]
    }
}

proof fn lemma_sum_monotonic(counts: Seq<usize>, m: int, n: int)
    requires
        0 <= m <= n <= counts.len(),
    ensures
        0 <= sum_upto(counts, m) <= sum_upto(counts, n),
    decreases n,
{
    if m < n {
        lemma_sum_monotonic(counts, m, n - 1);
    } else if m > 0 {
        lemma_sum_monotonic(counts, m - 1, m - 1);
    }
}

proof fn lemma_sum_update(counts: Seq<usize>, at: int, value: usize, n: int)
    requires
        0 <= at < counts.len(),
        0 <= n <= counts.len(),
    ensures
        sum_upto(counts.update(at, value), n) == sum_upto(counts, n) + if at < n {
            value - counts[at]
        } else {
            0
        },
    decreases n,
{
    if n > 0 {
        lemma_sum_update(counts, at, value, n - 1);
    }
}

/// How many elements fall into each bucket.
fn bucket_counts<T: Copy>(
    items: &Vec<T>,
    keys: &Vec<u64>,
    bits: u32,
    Ghost(hash): Ghost<spec_fn(T) -> u64>,
) -> (counts: Vec<usize>)
    requires
        1 <= bits <= 16,
        keys@ == items@.map_values(hash),
    ensures
        counts@.len() == (1u32 << bits),
        forall|b: int|
            0 <= b < counts@.len() ==> #[trigger] counts@[b] == items@.filter(
                in_bucket(hash, bits, b),
            ).len(),
        sum_upto(counts@, counts@.len() as int) == items@.len(),
{
    proof {
        lemma_power(bits);
    }
    let count: usize = (1u32 << bits) as usize;
    let mut counts: Vec<usize> = vec![0usize; count];
    let mut i: usize = 0;
    proof {
        assert(items@.take(0) =~= Seq::empty());
        assert forall|b: int| 0 <= b < count implies #[trigger] counts@[b] == items@.take(0).filter(
            in_bucket(hash, bits, b),
        ).len() by {
            crate::sort::lemma_filter_none(items@.take(0), in_bucket(hash, bits, b));
        }
        lemma_sum_zero(counts@, count as int);
    }
    while i < items.len()
        invariant
            1 <= bits <= 16,
            keys@ == items@.map_values(hash),
            i <= items@.len(),
            count == (1u32 << bits),
            counts@.len() == count,
            forall|b: int|
                0 <= b < counts@.len() ==> #[trigger] counts@[b] == items@.take(i as int).filter(
                    in_bucket(hash, bits, b),
                ).len(),
            sum_upto(counts@, counts@.len() as int) == i,
        decreases items@.len() - i,
    {
        let shift: u64 = 64 - bits as u64;
        let bucket: usize = (keys[i] >> shift) as usize;
        proof {
            lemma_bucket_index(keys@[i as int], bits);
            let pred = in_bucket(hash, bits, bucket as int);
            Seq::lemma_filter_len(items@.take(i as int), pred);
        }
        let ghost counts0 = counts@;
        assert(counts@[bucket as int] <= i);
        let raised: usize = counts[bucket] + 1;
        counts[bucket] = raised;
        proof {
            lemma_sum_update(counts0, bucket as int, raised, count as int);
            assert(items@.take(i + 1) =~= items@.take(i as int).push(items@[i as int]));
            assert forall|b: int| 0 <= b < count implies #[trigger] counts@[b] == items@.take(
                i + 1,
            ).filter(in_bucket(hash, bits, b)).len() by {
                crate::sort::lemma_filter_push(
                    items@.take(i as int),
                    items@[i as int],
                    in_bucket(hash, bits, b),
                );
                assert(counts0[b] == items@.take(i as int).filter(in_bucket(hash, bits, b)).len());
            }
        }
        i = i + 1;
    }
    assert(items@.take(items@.len() as int) =~= items@);
    counts
}

proof fn lemma_sum_zero(counts: Seq<usize>, n: int)
    requires
        0 <= n <= counts.len(),
        forall|b: int| 0 <= b < counts.len() ==> counts[b] == 0,
    ensures
        sum_upto(counts, n) == 0,
    decreases n,
{
    if n > 0 {
        lemma_sum_zero(counts, n - 1);
    }
}

/// Running totals of the counts, from 0 to the total.
fn running_totals(counts: &Vec<usize>, total: usize) -> (boundaries: Vec<usize>)
    requires
        sum_upto(counts@, counts@.len() as int) == total,
    ensures
        boundaries@.len() == counts@.len() + 1,
        forall|b: int| 0 <= b <= counts@.len() ==> #[trigger] boundaries@[b] == sum_upto(counts@, b),
{
    let mut boundaries: Vec<usize> = Vec::new();
    boundaries.push(0);
    let mut running: usize = 0;
    let mut bucket: usize = 0;
    while bucket < counts.len()
        invariant
            sum_upto(counts@, counts@.len() as int) == total,
            bucket <= counts@.len(),
            running == sum_upto(counts@, bucket as int),
            boundaries@.len() == bucket + 1,
            forall|b: int| 0 <= b <= bucket ==> #[trigger] boundaries@[b] == sum_upto(counts@, b),
        decreases counts@.len() - bucket,
    {
        proof {
            lemma_sum_monotonic(counts@, bucket + 1, counts@.len() as int);
        }
        running = running + counts[bucket];
        boundaries.push(running);
        bucket = bucket + 1;
    }
    boundaries
}

/// `part` stands in `out` from `start` on.
spec fn is_placed<T>(part: Seq<T>, out: Seq<T>, start: int) -> bool {
    &&& start + part.len() <= out.len()
    &&& forall|k: int| 0 <= k < part.len() ==> out[start + k] == #[trigger] part[k]
}

proof fn lemma_placed_write<T>(part: Seq<T>, out: Seq<T>, start: int, position: int, item: T)
    requires
        is_placed(part, out, start),
        0 <= start,
        0 <= position < out.len(),
    ensures
        position == start + part.len() ==> is_placed(part.push(item), out.update(position, item), start),
        position < start || start + part.len() <= position ==> is_placed(
            part,
            out.update(position, item),
            start,
        ),
{
    if position == start + part.len() {
        let longer = part.push(item);
        let written = out.update(position, item);
        assert forall|k: int| 0 <= k < longer.len() implies written[start + k]
            == #[trigger] longer[k] by {
            if k < part.len() {
                assert(longer[k] == part[k]);
            }
        }
    }
}

/// Gathers the elements of each bucket, in their order; bucket `b` is the range between the
/// boundaries `b` and `b + 1`.
fn bucket_partition<T: Copy>(
    items: &Vec<T>,
    keys: &Vec<u64>,
    bits: u32,
    Ghost(hash): Ghost<spec_fn(T) -> u64>,
) -> (result: (Vec<T>, Vec<usize>))
    requires
        1 <= bits <= 16,
        keys@ == items@.map_values(hash),
    ensures
        result.0@.len() == items@.len(),
        result.1@.len() == (1u32 << bits) + 1,
        result.1@[0] == 0,
        result.1@[(1u32 << bits) as int] == items@.len(),
        forall|b: int|
            0 <= b < (1u32 << bits) ==> (#[trigger] result.1@[b]) <= result.1@[b + 1] <= items@.len()
                && result.0@.subrange(result.1@[b] as int, result.1@[b + 1] as int)
                == items@.filter(in_bucket(hash, bits, b)),
{
    let counts = bucket_counts(items, keys, bits, Ghost(hash));
    let n: usize = items.len();
    let boundaries = running_totals(&counts, n);
    let ghost buckets = (1u32 << bits) as int;
    let mut cursor: Vec<usize> = Vec::new();
    let mut b: usize = 0;
    while b < counts.len()
        invariant
            b <= counts@.len(),
            boundaries@.len() == counts@.len() + 1,
            cursor@ == boundaries@.take(b as int),
        decreases counts@.len() - b,
    {
        cursor.push(boundaries[b]);
        b = b + 1;
        assert(cursor@ =~= boundaries@.take(b as int));
    }
    let mut out: Vec<T> = Vec::new();
    let mut k: usize = 0;
    while k < n
        invariant
            n == items@.len(),
            k <= n,
            out@.len() == k,
        decreases n - k,
    {
        out.push(items[k]);
        k = k + 1;
    }
    let mut i: usize = 0;
    proof {
        assert(items@.take(0) =~= Seq::empty());
        assert forall|b: int| 0 <= b < buckets implies #[trigger] is_placed(
            items@.take(0).filter(in_bucket(hash, bits, b)),
            out@,
            boundaries@[b] as int,
        ) by {
            crate::sort::lemma_filter_none(items@.take(0), in_bucket(hash, bits, b));
            lemma_sum_monotonic(counts@, b, buckets);
        }
        assert forall|b: int| 0 <= b < buckets implies #[trigger] cursor@[b] == boundaries@[b]
            + items@.take(0).filter(in_bucket(hash, bits, b)).len() by {
            crate::sort::lemma_filter_none(items@.take(0), in_bucket(hash, bits, b));
        }
    }
    while i < n
        invariant
            1 <= bits <= 16,
            keys@ == items@.map_values(hash),
            n == items@.len(),
            i <= n,
            out@.len() == n,
            buckets == (1u32 << bits),
            counts@.len() == buckets,
            boundaries@.len() == buckets + 1,
            cursor@.len() == buckets,
            sum_upto(counts@, buckets) == n,
            forall|b: int| 0 <= b <= buckets ==> #[trigger] boundaries@[b] == sum_upto(counts@, b),
            forall|b: int|
                0 <= b < buckets ==> #[trigger] counts@[b] == items@.filter(
                    in_bucket(hash, bits, b),
                ).len(),
            forall|b: int|
                0 <= b < buckets ==> #[trigger] cursor@[b] == boundaries@[b] + items@.take(
                    i as int,
                ).filter(in_bucket(hash, bits, b)).len(),
            forall|b: int|
                0 <= b < buckets ==> #[trigger] is_placed(
                    items@.take(i as int).filter(in_bucket(hash, bits, b)),
                    out@,
                    boundaries@[b] as int,
                ),
        decreases n - i,
    {
        let shift: u64 = 64 - bits as u64;
        let bucket: usize = (keys[i] >> shift) as usize;
        let ghost item = items@[i as int];
        let ghost done = items@.take(i as int);
        let ghost more = items@.take(i + 1);
        proof {
            lemma_bucket_index(keys@[i as int], bits);
            assert(more =~= done.push(item));
            lemma_bucket_room(items@, hash, bits, bucket as int, i as int);
            assert(counts@[bucket as int] == items@.filter(
                in_bucket(hash, bits, bucket as int),
            ).len());
            lemma_sum_monotonic(counts@, bucket + 1, buckets);
            assert(boundaries@[bucket as int] == sum_upto(counts@, bucket as int));
            assert(boundaries@[bucket + 1] == sum_upto(counts@, bucket + 1));
        }
        let position: usize = cursor[bucket];
        let ghost out0 = out@;
        let ghost cursor0 = cursor@;
        cursor[bucket] = position + 1;
        out[position] = items[i];
        proof {
            assert forall|b: int| 0 <= b < buckets implies #[trigger] cursor@[b] == boundaries@[b]
                + more.filter(in_bucket(hash, bits, b)).len() by {
                crate::sort::lemma_filter_push(done, item, in_bucket(hash, bits, b));
                assert(cursor0[b] == boundaries@[b] + done.filter(in_bucket(hash, bits, b)).len());
            }
            assert forall|b: int| 0 <= b < buckets implies #[trigger] is_placed(
                more.filter(in_bucket(hash, bits, b)),
                out@,
                boundaries@[b] as int,
            ) by {
                crate::sort::lemma_filter_push(done, item, in_bucket(hash, bits, b));
                let before = done.filter(in_bucket(hash, bits, b));
                assert(is_placed(before, out0, boundaries@[b] as int));
                if b != bucket {
                    // Another bucket's range does not hold the written position.
                    lemma_filter_prefix_len(items@, i as int, in_bucket(hash, bits, b));
                    assert(counts@[b] == items@.filter(in_bucket(hash, bits, b)).len());
                    assert(boundaries@[b + 1] == sum_upto(counts@, b + 1));
                    assert(boundaries@[b] == sum_upto(counts@, b));
                    if b < bucket {
                        lemma_sum_monotonic(counts@, b + 1, bucket as int);
                    } else {
                        lemma_sum_monotonic(counts@, bucket + 1, b);
                    }
                }
                lemma_placed_write(
                    before,
                    out0,
                    boundaries@[b] as int,
                    position as int,
                    item,
                );
            }
        }
        i = i + 1;
        assert(items@.take(i as int) == more);
    }
    proof {
        assert(items@.take(n as int) =~= items@);
        assert forall|b: int| 0 <= b < buckets implies (#[trigger] boundaries@[b]) <= boundaries@[b
            + 1] <= n && out@.subrange(boundaries@[b] as int, boundaries@[b + 1] as int)
            == items@.filter(in_bucket(hash, bits, b)) by {
            assert(boundaries@[b] == sum_upto(counts@, b));
            assert(boundaries@[b + 1] == sum_upto(counts@, b + 1));
            assert(counts@[b] == items@.filter(in_bucket(hash, bits, b)).len());
            lemma_sum_monotonic(counts@, b + 1, buckets);
            let part = out@.subrange(boundaries@[b] as int, boundaries@[b + 1] as int);
            let wanted = items@.filter(in_bucket(hash, bits, b));
            assert(is_placed(wanted, out@, boundaries@[b] as int));
            assert(part =~= wanted);
        }
    }
    (out, boundaries)
}

proof fn lemma_filter_prefix_len<A>(s: Seq<A>, i: int, pred: spec_fn(A) -> bool)
    requires
        0 <= i <= s.len(),
    ensures
        s.take(i).filter(pred).len() <= s.filter(pred).len(),
{
    assert(s =~= s.take(i) + s.skip(i));
    crate::sort::lemma_filter_add(s.take(i), s.skip(i), pred);
}

proof fn lemma_bucket_room<T>(
    items: Seq<T>,
    hash: spec_fn(T) -> u64,
    bits: u32,
    bucket: int,
    i: int,
)
    requires
        0 <= i < items.len(),
        bucket_index(hash(items[i]), bits) == bucket,
    ensures
        items.take(i).filter(in_bucket(hash, bits, bucket)).len() < items.filter(
            in_bucket(hash, bits, bucket),
        ).len(),
{
    let pred = in_bucket(hash, bits, bucket);
    assert(items.take(i + 1) =~= items.take(i).push(items[i]));
    crate::sort::lemma_filter_push(items.take(i), items[i], pred);
    lemma_filter_prefix_len(items, i + 1, pred);
}

/// Filtering twice is filtering once where the second filter implies the first, and leaves
/// nothing where it excludes the first.
proof fn lemma_filter_twice<A>(s: Seq<A>, p: spec_fn(A) -> bool, q: spec_fn(A) -> bool)
    ensures
        (forall|x: A| #[trigger] q(x) ==> p(x)) ==> s.filter(p).filter(q) == s.filter(q),
        (forall|x: A| #[trigger] q(x) ==> !p(x)) ==> s.filter(p).filter(q) == Seq::<A>::empty(),
    decreases s.len(),
{
    if s.len() == 0 {
        assert(s =~= Seq::empty());
        crate::sort::lemma_filter_none(s, p);
        crate::sort::lemma_filter_none(s, q);
    } else {
        let s0 = s.drop_last();
        let x = s.last();
        assert(s0.push(x) =~= s);
        lemma_filter_twice(s0, p, q);
        crate::sort::lemma_filter_push(s0, x, p);
        crate::sort::lemma_filter_push(s0, x, q);
        crate::sort::lemma_filter_push(s0.filter(p), x, q);
    }
}

/// A copy of a range of elements.
fn copy_range<T: Copy>(items: &Vec<T>, start: usize, end: usize) -> (part: Vec<T>)
    requires
        start <= end <= items@.len(),
    ensures
        part@ == items@.subrange(start as int, end as int),
{
    let mut part: Vec<T> = Vec::new();
    let mut i: usize = start;
    while i < end
        invariant
            start <= i <= end <= items@.len(),
            part@ == items@.subrange(start as int, i as int),
        decreases end - i,
    {
        part.push(items[i]);
        i = i + 1;
        assert(part@ =~= items@.subrange(start as int, i as int));
    }
    part
}

/// Sorts a few seeds.
fn sort_seed_bucket(seeds: &Vec<(u64, u32, u32)>) -> (sorted: Vec<(u64, u32, u32)>)
    ensures
        sorted@ == crate::sort::sorted_with(seeds@, by_seed()),
{
    let mut keys: Vec<u128> = Vec::new();
    let ghost wanted = seeds@.map_values(by_seed());
    let mut i: usize = 0;
    while i < seeds.len()
        invariant
            i <= seeds@.len(),
            wanted == seeds@.map_values(by_seed()),
            keys@ == wanted.take(i as int),
        decreases seeds@.len() - i,
    {
        let (signature, file, start) = seeds[i];
        keys.push(
            signature as u128 * 0x1_0000_0000_0000_0000 + file as u128 * 0x1_0000_0000
                + start as u128,
        );
        i = i + 1;
        assert(keys@ =~= wanted.take(i as int));
    }
    assert(keys@ =~= wanted);
    sort_by_keys(seeds, &keys)
}

/// The signature that a seed key begins with.
spec fn key_signature(key: u128) -> u64 {
    (key / 0x1_0000_0000_0000_0000) as u64
}

proof fn lemma_seed_key(seed: (u64, u32, u32))
    ensures
        key_signature(seed_key(seed)) == seed.0,
        seed_key(seed) == seed.0 * 0x1_0000_0000_0000_0000 + seed.1 * 0x1_0000_0000 + seed.2,
{
    let key = seed.0 * 0x1_0000_0000_0000_0000 + seed.1 * 0x1_0000_0000 + seed.2;
    assert(key / 0x1_0000_0000_0000_0000 == seed.0) by (nonlinear_arith)
        requires
            key == seed.0 * 0x1_0000_0000_0000_0000 + seed.1 * 0x1_0000_0000 + seed.2,
            0 <= seed.1 < 0x1_0000_0000,
            0 <= seed.2 < 0x1_0000_0000,
    ;
}

/// The order of seeds is that of their signatures first.
pub proof fn lemma_seed_order(a: (u64, u32, u32), b: (u64, u32, u32))
    ensures
        a.0 < b.0 ==> seed_key(a) < seed_key(b),
        seed_key(a) <= seed_key(b) ==> a.0 <= b.0,
        seed_key(a) == seed_key(b) ==> a == b,
{
    lemma_seed_key(a);
    lemma_seed_key(b);
}

/// Sorts seeds by signature, file and window start.
pub fn sort_seeds(seeds: Vec<(u64, u32, u32)>) -> (sorted: Vec<(u64, u32, u32)>)
    ensures
        sorted@ == crate::sort::sorted_with(seeds@, by_seed()),
{
    if seeds.len() < BUCKET_SORT_MIN {
        let mut sorted = seeds;
        par_sort_seeds(&mut sorted);
        return sorted;
    }
    let bits = bucket_bits(seeds.len());
    let mut signatures: Vec<u64> = Vec::new();
    let ghost hash = |seed: (u64, u32, u32)| seed.0;
    let mut i: usize = 0;
    while i < seeds.len()
        invariant
            i <= seeds@.len(),
            hash == (|seed: (u64, u32, u32)| seed.0),
            signatures@ == seeds@.map_values(hash).take(i as int),
        decreases seeds@.len() - i,
    {
        signatures.push(seeds[i].0);
        i = i + 1;
        assert(signatures@ =~= seeds@.map_values(hash).take(i as int));
    }
    assert(signatures@ =~= seeds@.map_values(hash));
    let (parted, boundaries) = bucket_partition(&seeds, &signatures, bits, Ghost(hash));
    proof {
        lemma_power(bits);
    }
    let count: usize = (1u32 << bits) as usize;
    let mut sorted: Vec<(u64, u32, u32)> = Vec::new();
    let mut b: usize = 0;
    proof {
        assert forall|k: u128| #[trigger] sorted@.filter(crate::sort::keyed(by_seed(), k))
            == bucketed_part(seeds@, bits, 0, k) by {
            crate::sort::lemma_filter_none(sorted@, crate::sort::keyed(by_seed(), k));
            lemma_bucket_index(key_signature(k), bits);
        }
    }
    while b < count
        invariant
            1 <= bits <= 16,
            count == (1u32 << bits),
            b <= count,
            hash == (|seed: (u64, u32, u32)| seed.0),
            parted@.len() == seeds@.len(),
            boundaries@.len() == count + 1,
            forall|b: int|
                0 <= b < count ==> (#[trigger] boundaries@[b]) <= boundaries@[b + 1] <= seeds@.len()
                    && parted@.subrange(boundaries@[b] as int, boundaries@[b + 1] as int)
                    == seeds@.filter(in_bucket(hash, bits, b)),
            crate::sort::ascends(sorted@, by_seed()),
            forall|i: int|
                0 <= i < sorted@.len() ==> bucket_index((#[trigger] sorted@[i]).0, bits) < b,
            forall|k: u128| #[trigger]
                sorted@.filter(crate::sort::keyed(by_seed(), k)) == bucketed_part(
                    seeds@,
                    bits,
                    b as int,
                    k,
                ),
        decreases count - b,
    {
        let ghost sorted0 = sorted@;
        assert(boundaries@[b as int] <= boundaries@[b + 1]);
        let part = copy_range(&parted, boundaries[b], boundaries[b + 1]);
        let mut bucket = sort_seed_bucket(&part);
        let ghost added = bucket@;
        proof {
            let pred = in_bucket(hash, bits, b as int);
            assert(part@ == seeds@.filter(pred));
            crate::sort::lemma_sorted_with(part@, by_seed());
            assert forall|i: int| 0 <= i < added.len() implies bucket_index(
                (#[trigger] added[i]).0,
                bits,
            ) == b by {
                lemma_member_of_sorted(part@, i);
                let j = choose|j: int| 0 <= j < part@.len() && part@[j] == added[i];
                Seq::lemma_filter_pred(seeds@, pred, j);
            }
            assert forall|i: int, j: int|
                0 <= i < sorted0.len() && 0 <= j < added.len() implies by_seed()(
                #[trigger] sorted0[i],
            ) <= by_seed()(#[trigger] added[j]) by {
                lemma_bucket_monotonic(sorted0[i].0, added[j].0, bits);
                lemma_seed_order(sorted0[i], added[j]);
            }
            let whole = sorted0 + added;
            assert forall|i: int, j: int| 0 <= i < j < whole.len() implies by_seed()(
                #[trigger] whole[i],
            ) <= by_seed()(#[trigger] whole[j]) by {
                if i < sorted0.len() && j >= sorted0.len() {
                    assert(by_seed()(sorted0[i]) <= by_seed()(added[j - sorted0.len()]));
                } else if i >= sorted0.len() {
                    assert(by_seed()(added[i - sorted0.len()]) <= by_seed()(
                        added[j - sorted0.len()],
                    ));
                } else {
                    assert(by_seed()(sorted0[i]) <= by_seed()(sorted0[j]));
                }
            }
            assert forall|k: u128| #[trigger] whole.filter(crate::sort::keyed(by_seed(), k))
                == bucketed_part(seeds@, bits, b + 1, k) by {
                let q = crate::sort::keyed(by_seed(), k);
                crate::sort::lemma_filter_add(sorted0, added, q);
                assert(added.filter(q) == part@.filter(q));
                assert(sorted0.filter(q) == bucketed_part(seeds@, bits, b as int, k));
                lemma_filter_twice(seeds@, pred, q);
                assert forall|x: (u64, u32, u32)| #[trigger] q(x) implies bucket_index(x.0, bits)
                    == bucket_index(key_signature(k), bits) by {
                    lemma_seed_key(x);
                }
                let home = bucket_index(key_signature(k), bits);
                if home == b {
                    assert(forall|x: (u64, u32, u32)| #[trigger] q(x) ==> pred(x));
                    assert(whole.filter(q) =~= seeds@.filter(q));
                } else {
                    assert(forall|x: (u64, u32, u32)| #[trigger] q(x) ==> !pred(x));
                    assert(whole.filter(q) =~= sorted0.filter(q));
                }
            }
            assert forall|i: int| 0 <= i < whole.len() implies bucket_index(
                (#[trigger] whole[i]).0,
                bits,
            ) < b + 1 by {
                if i < sorted0.len() {
                    assert(whole[i] == sorted0[i]);
                } else {
                    assert(whole[i] == added[i - sorted0.len()]);
                }
            }
        }
        sorted.append(&mut bucket);
        assert(sorted@ =~= sorted0 + added);
        b = b + 1;
    }
    proof {
        crate::sort::lemma_sorted_with(seeds@, by_seed());
        assert forall|k: u128| #[trigger] sorted@.filter(crate::sort::keyed(by_seed(), k))
            == crate::sort::sorted_with(seeds@, by_seed()).filter(
            crate::sort::keyed(by_seed(), k),
        ) by {
            lemma_bucket_index(key_signature(k), bits);
            assert(sorted@.filter(crate::sort::keyed(by_seed(), k)) == bucketed_part(
                seeds@,
                bits,
                count as int,
                k,
            ));
        }
        crate::sort::lemma_ascending_unique(
            sorted@,
            crate::sort::sorted_with(seeds@, by_seed()),
            by_seed(),
        );
    }
    sorted
}

/// The seeds with key `k`, if their bucket is below `b`.
spec fn bucketed_part(
    seeds: Seq<(u64, u32, u32)>,
    bits: u32,
    b: int,
    k: u128,
) -> Seq<(u64, u32, u32)> {
    if bucket_index(key_signature(k), bits) < b {
        seeds.filter(crate::sort::keyed(by_seed(), k))
    } else {
        Seq::empty()
    }
}

pub proof fn lemma_member_of_sorted(seeds: Seq<(u64, u32, u32)>, i: int)
    requires
        0 <= i < crate::sort::sorted_with(seeds, by_seed()).len(),
    ensures
        exists|j: int|
            0 <= j < seeds.len() && seeds[j] == crate::sort::sorted_with(seeds, by_seed())[i],
{
    let keys = seeds.map_values(by_seed());
    crate::sort::lemma_stable_order(keys);
    let order = crate::sort::stable_order(keys);
    assert(seeds[order[i]] == crate::sort::sorted_with(seeds, by_seed())[i]);
}

/// How many of the first `n` seeds have the signature.
pub open spec fn signature_count(seeds: Seq<(u64, u32, u32)>, signature: u64, n: int) -> int
    decreases n,
{
    if n <= 0 {
        0
    } else {
        signature_count(seeds, signature, n - 1) + if seeds[n - 1].0 == signature {
            1int
        } else {
            0int
        }
    }
}

/// Two seeds of one signature make a candidate unless they overlap in one file or the signature
/// is too common.
pub open spec fn makes_candidate(
    seeds: Seq<(u64, u32, u32)>,
    i: int,
    j: int,
    window: int,
    max_bucket: int,
) -> bool {
    &&& seeds[i].0 == seeds[j].0
    &&& signature_count(seeds, seeds[i].0, seeds.len() as int) <= max_bucket
    &&& !(seeds[i].1 == seeds[j].1 && seeds[j].2 < seeds[i].2 + window)
}

/// The candidate of two seeds.
pub open spec fn candidate_of(a: (u64, u32, u32), b: (u64, u32, u32)) -> Candidate {
    Candidate { file_a: a.1, file_b: b.1, start_a: a.2, start_b: b.2 }
}

/// The candidates of seed `i` with the later seeds below `n`.
pub open spec fn candidate_row(
    seeds: Seq<(u64, u32, u32)>,
    i: int,
    n: int,
    window: int,
    max_bucket: int,
) -> Seq<Candidate>
    decreases n - i,
{
    if n <= i + 1 {
        Seq::empty()
    } else {
        let row = candidate_row(seeds, i, n - 1, window, max_bucket);
        if makes_candidate(seeds, i, n - 1, window, max_bucket) {
            row.push(candidate_of(seeds[i], seeds[n - 1]))
        } else {
            row
        }
    }
}

/// The candidates of the first `n` seeds with all later ones.
pub open spec fn candidate_rows(
    seeds: Seq<(u64, u32, u32)>,
    n: int,
    window: int,
    max_bucket: int,
) -> Seq<Candidate>
    decreases n,
{
    if n <= 0 {
        Seq::empty()
    } else {
        candidate_rows(seeds, n - 1, window, max_bucket) + candidate_row(
            seeds,
            n - 1,
            seeds.len() as int,
            window,
            max_bucket,
        )
    }
}

/// Seeds of one signature stand next to each other.
pub open spec fn is_clustered(seeds: Seq<(u64, u32, u32)>) -> bool {
    forall|i: int, j: int|
        0 <= i < j < seeds.len() ==> (#[trigger] seeds[i]).0 <= (#[trigger] seeds[j]).0
}

/// `start..end` holds all seeds of the signature at `start`.
spec fn is_run(seeds: Seq<(u64, u32, u32)>, start: int, end: int) -> bool {
    &&& 0 <= start < end <= seeds.len()
    &&& forall|k: int| start <= k < end ==> (#[trigger] seeds[k]).0 == seeds[start].0
    &&& forall|k: int| 0 <= k < start ==> (#[trigger] seeds[k]).0 < seeds[start].0
    &&& forall|k: int| end <= k < seeds.len() ==> (#[trigger] seeds[k]).0 > seeds[start].0
}

proof fn lemma_run_count(seeds: Seq<(u64, u32, u32)>, start: int, end: int, n: int)
    requires
        is_run(seeds, start, end),
        0 <= n <= seeds.len(),
    ensures
        signature_count(seeds, seeds[start].0, n) == (if n <= start {
            0
        } else if n <= end {
            n - start
        } else {
            end - start
        }),
    decreases n,
{
    if n > 0 {
        lemma_run_count(seeds, start, end, n - 1);
    }
}

/// A seed has no candidates beyond its run.
proof fn lemma_row_in_run(
    seeds: Seq<(u64, u32, u32)>,
    start: int,
    end: int,
    i: int,
    n: int,
    window: int,
    max_bucket: int,
)
    requires
        is_run(seeds, start, end),
        start <= i < end <= n <= seeds.len(),
    ensures
        candidate_row(seeds, i, n, window, max_bucket) == candidate_row(
            seeds,
            i,
            end,
            window,
            max_bucket,
        ),
    decreases n,
{
    if n > end {
        lemma_row_in_run(seeds, start, end, i, n - 1, window, max_bucket);
        assert(seeds[i].0 == seeds[start].0);
        assert(seeds[n - 1].0 > seeds[start].0);
    }
}

/// A run that is too short or too long gives no candidates.
proof fn lemma_skipped_run(
    seeds: Seq<(u64, u32, u32)>,
    start: int,
    end: int,
    i: int,
    n: int,
    window: int,
    max_bucket: int,
)
    requires
        is_run(seeds, start, end),
        end - start < 2 || end - start > max_bucket,
        start <= i < end,
        n <= end,
    ensures
        candidate_row(seeds, i, n, window, max_bucket) == Seq::<Candidate>::empty(),
    decreases n,
{
    if n > i + 1 {
        lemma_skipped_run(seeds, start, end, i, n - 1, window, max_bucket);
        lemma_run_count(seeds, start, end, seeds.len() as int);
        assert(seeds[i].0 == seeds[start].0);
    }
}

proof fn lemma_skipped_rows(
    seeds: Seq<(u64, u32, u32)>,
    start: int,
    end: int,
    n: int,
    window: int,
    max_bucket: int,
)
    requires
        is_run(seeds, start, end),
        end - start < 2 || end - start > max_bucket,
        start <= n <= end,
    ensures
        candidate_rows(seeds, n, window, max_bucket) == candidate_rows(
            seeds,
            start,
            window,
            max_bucket,
        ),
    decreases n,
{
    if n > start {
        lemma_skipped_rows(seeds, start, end, n - 1, window, max_bucket);
        lemma_row_in_run(seeds, start, end, n - 1, seeds.len() as int, window, max_bucket);
        lemma_skipped_run(seeds, start, end, n - 1, end, window, max_bucket);
        assert(candidate_rows(seeds, n, window, max_bucket) =~= candidate_rows(
            seeds,
            n - 1,
            window,
            max_bucket,
        ));
    }
}

/// Appends the candidates of the seeds of one run.
fn push_run_candidates(
    seeds: &Vec<(u64, u32, u32)>,
    start: usize,
    end: usize,
    window: usize,
    max_bucket: usize,
    candidates: &mut Vec<Candidate>,
)
    requires
        is_run(seeds@, start as int, end as int),
        2 <= end - start <= max_bucket,
        forall|k: int| 0 <= k < seeds@.len() ==> (#[trigger] seeds@[k]).2 + window <= u32::MAX,
        old(candidates)@ == candidate_rows(
            seeds@,
            start as int,
            window as int,
            max_bucket as int,
        ),
    ensures
        final(candidates)@ == candidate_rows(
            seeds@,
            end as int,
            window as int,
            max_bucket as int,
        ),
{
    let mut i: usize = start;
    while i < end
        invariant
            is_run(seeds@, start as int, end as int),
            2 <= end - start <= max_bucket,
            forall|k: int| 0 <= k < seeds@.len() ==> (#[trigger] seeds@[k]).2 + window <= u32::MAX,
            start <= i <= end,
            candidates@ == candidate_rows(seeds@, i as int, window as int, max_bucket as int),
        decreases end - i,
    {
        let ghost rows = candidates@;
        let mut j: usize = i + 1;
        proof {
            lemma_run_count(seeds@, start as int, end as int, seeds@.len() as int);
            assert(seeds@[i as int].0 == seeds@[start as int].0);
            assert(rows + Seq::<Candidate>::empty() =~= rows);
        }
        while j < end
            invariant
                is_run(seeds@, start as int, end as int),
                2 <= end - start <= max_bucket,
                signature_count(seeds@, seeds@[i as int].0, seeds@.len() as int) == end - start,
                forall|k: int|
                    0 <= k < seeds@.len() ==> (#[trigger] seeds@[k]).2 + window <= u32::MAX,
                start <= i < j <= end,
                candidates@ == rows + candidate_row(
                    seeds@,
                    i as int,
                    j as int,
                    window as int,
                    max_bucket as int,
                ),
            decreases end - j,
        {
            let (_, file_a, start_a) = seeds[i];
            let (_, file_b, start_b) = seeds[j];
            assert(seeds@[i as int].0 == seeds@[start as int].0);
            assert(seeds@[j as int].0 == seeds@[start as int].0);
            assert(seeds@[i as int].2 + window <= u32::MAX);
            if !(file_a == file_b && start_b < start_a + window as u32) {
                let ghost before = candidates@;
                candidates.push(Candidate { file_a, file_b, start_a, start_b });
                proof {
                    let row = candidate_row(
                        seeds@,
                        i as int,
                        j as int,
                        window as int,
                        max_bucket as int,
                    );
                    let added = candidate_of(seeds@[i as int], seeds@[j as int]);
                    assert(candidates@ =~= rows + row.push(added));
                }
            }
            j = j + 1;
        }
        proof {
            lemma_row_in_run(
                seeds@,
                start as int,
                end as int,
                i as int,
                seeds@.len() as int,
                window as int,
                max_bucket as int,
            );
        }
        i = i + 1;
    }
}

/// The candidates of sorted seeds: all pairs of windows with the same signature that do not
/// overlap, except for signatures that are too common.
pub fn collect_candidates(seeds: &Vec<(u64, u32, u32)>, window: usize, max_bucket: usize) -> (candidates:
    Vec<Candidate>)
    requires
        is_clustered(seeds@),
        forall|k: int| 0 <= k < seeds@.len() ==> (#[trigger] seeds@[k]).2 + window <= u32::MAX,
    ensures
        candidates@ == candidate_rows(
            seeds@,
            seeds@.len() as int,
            window as int,
            max_bucket as int,
        ),
{
    let mut candidates: Vec<Candidate> = Vec::new();
    let mut index: usize = 0;
    while index < seeds.len()
        invariant
            is_clustered(seeds@),
            forall|k: int| 0 <= k < seeds@.len() ==> (#[trigger] seeds@[k]).2 + window <= u32::MAX,
            index <= seeds@.len(),
            0 < index < seeds@.len() ==> seeds@[index - 1].0 < seeds@[index as int].0,
            candidates@ == candidate_rows(seeds@, index as int, window as int, max_bucket as int),
        decreases seeds@.len() - index,
    {
        let signature: u64 = seeds[index].0;
        let mut end: usize = index + 1;
        while end < seeds.len() && seeds[end].0 == signature
            invariant
                index < end <= seeds@.len(),
                signature == seeds@[index as int].0,
                forall|k: int| index <= k < end ==> (#[trigger] seeds@[k]).0 == signature,
            decreases seeds@.len() - end,
        {
            end = end + 1;
        }
        proof {
            assert forall|k: int| 0 <= k < index implies (#[trigger] seeds@[k]).0
                < seeds@[index as int].0 by {
                if k < index - 1 {
                    assert(seeds@[k].0 <= seeds@[index - 1].0);
                }
            }
            assert forall|k: int| end <= k < seeds@.len() implies (#[trigger] seeds@[k]).0
                > seeds@[index as int].0 by {
                assert(seeds@[index as int].0 <= seeds@[end as int].0);
                if k > end {
                    assert(seeds@[end as int].0 <= seeds@[k].0);
                }
            }
            assert(is_run(seeds@, index as int, end as int));
        }
        if end - index >= 2 && end - index <= max_bucket {
            push_run_candidates(seeds, index, end, window, max_bucket, &mut candidates);
        } else {
            proof {
                lemma_skipped_rows(
                    seeds@,
                    index as int,
                    end as int,
                    end as int,
                    window as int,
                    max_bucket as int,
                );
            }
        }
        index = end;
    }
    candidates
}

/// The first position after `i` with another file pair.
pub open spec fn group_end(candidates: Seq<Candidate>, i: int) -> int
    decreases candidates.len() - i,
{
    if i + 1 >= candidates.len() || pair_key_of(candidates[i + 1]) != pair_key_of(candidates[i]) {
        i + 1
    } else {
        group_end(candidates, i + 1)
    }
}

/// The candidates from `i` on, split where the file pair changes.
pub open spec fn groups_from(candidates: Seq<Candidate>, i: int) -> Seq<Seq<Candidate>>
    decreases candidates.len() - i,
{
    if i >= candidates.len() {
        Seq::empty()
    } else {
        let end = group_end(candidates, i);
        if end <= i || end > candidates.len() {
            Seq::empty()
        } else {
            seq![candidates.subrange(i, end)] + groups_from(candidates, end)
        }
    }
}

/// The candidates grouped by file pair, in ascending order of the pairs, each group in the order
/// of the candidates.
pub open spec fn pair_groups(candidates: Seq<Candidate>) -> Seq<Seq<Candidate>> {
    groups_from(crate::sort::sorted_with(candidates, by_pair()), 0)
}

proof fn lemma_group_end(candidates: Seq<Candidate>, i: int)
    requires
        0 <= i < candidates.len(),
    ensures
        i < group_end(candidates, i) <= candidates.len(),
        forall|k: int|
            i <= k < group_end(candidates, i) ==> pair_key_of(#[trigger] candidates[k])
                == pair_key_of(candidates[i]),
        group_end(candidates, i) < candidates.len() ==> pair_key_of(
            candidates[group_end(candidates, i)],
        ) != pair_key_of(candidates[i]),
    decreases candidates.len() - i,
{
    if i + 1 < candidates.len() && pair_key_of(candidates[i + 1]) == pair_key_of(candidates[i]) {
        lemma_group_end(candidates, i + 1);
    }
}

/// The sequences that a vector of vectors holds.
pub open spec fn groups_view(groups: Seq<Vec<Candidate>>) -> Seq<Seq<Candidate>> {
    groups.map_values(|group: Vec<Candidate>| group@)
}

fn pair_key(candidate: &Candidate) -> (key: u64)
    ensures
        key == pair_key_of(*candidate),
        key == candidate.file_a * 0x1_0000_0000 + candidate.file_b,
{
    candidate.file_a as u64 * 0x1_0000_0000 + candidate.file_b as u64
}

/// Splits sorted candidates where the file pair changes.
fn split_groups(candidates: &Vec<Candidate>) -> (groups: Vec<Vec<Candidate>>)
    ensures
        groups_view(groups@) == groups_from(candidates@, 0),
{
    let mut groups: Vec<Vec<Candidate>> = Vec::new();
    let mut start: usize = 0;
    assert(groups_view(groups@) + groups_from(candidates@, 0) =~= groups_from(candidates@, 0));
    while start < candidates.len()
        invariant
            start <= candidates@.len(),
            groups_view(groups@) + groups_from(candidates@, start as int) == groups_from(
                candidates@,
                0,
            ),
        decreases candidates@.len() - start,
    {
        let key: u64 = pair_key(&candidates[start]);
        let mut end: usize = start + 1;
        while end < candidates.len() && pair_key(&candidates[end]) == key
            invariant
                start < end <= candidates@.len(),
                key == pair_key_of(candidates@[start as int]),
                key == pair_key_of(candidates@[end - 1]),
                group_end(candidates@, start as int) == group_end(candidates@, end - 1),
            decreases candidates@.len() - end,
        {
            end = end + 1;
        }
        let ghost groups0 = groups@;
        let group = copy_range(candidates, start, end);
        groups.push(group);
        proof {
            let rest = groups_from(candidates@, end as int);
            assert(groups_view(groups@) + rest =~= groups_view(groups0) + (seq![
                candidates@.subrange(start as int, end as int),
            ] + rest));
        }
        start = end;
    }
    assert(groups_view(groups@) + Seq::<Seq<Candidate>>::empty() =~= groups_view(groups@));
    groups
}

/// One of the groups has the key.
pub open spec fn has_group(groups: Seq<Seq<Candidate>>, key: u128) -> bool {
    exists|g: int| 0 <= g < groups.len() && pair_key_of(#[trigger] groups[g][0]) == key
}

/// `groups` holds for each file pair of the candidates, in ascending order, all its candidates.
pub open spec fn is_grouping(candidates: Seq<Candidate>, groups: Seq<Seq<Candidate>>) -> bool {
    &&& forall|g: int|
        0 <= g < groups.len() ==> (#[trigger] groups[g]).len() > 0 && groups[g]
            == candidates.filter(crate::sort::keyed(by_pair(), pair_key_of(groups[g][0])))
    &&& forall|g: int, h: int|
        0 <= g < h < groups.len() ==> pair_key_of((#[trigger] groups[g])[0]) < pair_key_of(
            (#[trigger] groups[h])[0],
        )
    &&& forall|i: int|
        0 <= i < candidates.len() ==> has_group(groups, pair_key_of(#[trigger] candidates[i]))
}

/// What `is_grouping` says of the groups that start at `i` or later.
spec fn groups_tail(
    candidates: Seq<Candidate>,
    groups: Seq<Seq<Candidate>>,
    i: int,
) -> bool {
    &&& forall|g: int|
        0 <= g < groups.len() ==> (#[trigger] groups[g]).len() > 0 && groups[g]
            == candidates.filter(crate::sort::keyed(by_pair(), pair_key_of(groups[g][0])))
    &&& forall|g: int|
        0 <= g < groups.len() ==> pair_key_of((#[trigger] groups[g])[0]) >= pair_key_of(
            candidates[i],
        )
    &&& forall|g: int, h: int|
        0 <= g < h < groups.len() ==> pair_key_of((#[trigger] groups[g])[0]) < pair_key_of(
            (#[trigger] groups[h])[0],
        )
    &&& forall|k: int|
        i <= k < candidates.len() ==> has_group(groups, pair_key_of(#[trigger] candidates[k]))
}

/// The group at `i` holds all candidates of its file pair.
proof fn lemma_first_group(candidates: Seq<Candidate>, i: int)
    requires
        crate::sort::ascends(candidates, by_pair()),
        0 <= i < candidates.len(),
        0 < i ==> pair_key_of(candidates[i - 1]) < pair_key_of(candidates[i]),
    ensures
        candidates.filter(crate::sort::keyed(by_pair(), pair_key_of(candidates[i])))
            == candidates.subrange(i, group_end(candidates, i)),
        group_end(candidates, i) < candidates.len() ==> pair_key_of(
            candidates[group_end(candidates, i) - 1],
        ) < pair_key_of(candidates[group_end(candidates, i)]),
{
    lemma_group_end(candidates, i);
    let end = group_end(candidates, i);
    let key = pair_key_of(candidates[i]);
    if end < candidates.len() {
        assert(by_pair()(candidates[i]) <= by_pair()(candidates[end]));
        assert(pair_key_of(candidates[end - 1]) == key);
    }
    let pred = crate::sort::keyed(by_pair(), key);
    assert forall|k: int| 0 <= k < candidates.len() implies pred(#[trigger] candidates[k]) == (i <= k
        < end) by {
        if k < i - 1 {
            assert(by_pair()(candidates[k]) <= by_pair()(candidates[i - 1]));
        } else if k > end {
            assert(by_pair()(candidates[end]) <= by_pair()(candidates[k]));
        }
    }
    crate::sort::lemma_filter_range(candidates, i, end, pred);
}

proof fn lemma_groups_from(candidates: Seq<Candidate>, i: int)
    requires
        crate::sort::ascends(candidates, by_pair()),
        0 <= i <= candidates.len(),
        0 < i < candidates.len() ==> pair_key_of(candidates[i - 1]) < pair_key_of(candidates[i]),
    ensures
        groups_tail(candidates, groups_from(candidates, i), i),
    decreases candidates.len() - i,
{
    if i < candidates.len() {
        lemma_group_end(candidates, i);
        lemma_first_group(candidates, i);
        let end = group_end(candidates, i);
        lemma_groups_from(candidates, end);
        let first = candidates.subrange(i, end);
        let rest = groups_from(candidates, end);
        let groups = groups_from(candidates, i);
        assert(groups == seq![first] + rest);
        assert(first[0] == candidates[i]);
        let key = pair_key_of(candidates[i]);
        assert(end < candidates.len() ==> key < pair_key_of(candidates[end])) by {
            if end < candidates.len() {
                assert(pair_key_of(candidates[end - 1]) == key);
            }
        }
        assert forall|g: int| 0 <= g < rest.len() implies key < pair_key_of(
            (#[trigger] rest[g])[0],
        ) by {}
        assert forall|g: int| 0 <= g < groups.len() implies (#[trigger] groups[g]).len() > 0
            && groups[g] == candidates.filter(
            crate::sort::keyed(by_pair(), pair_key_of(groups[g][0])),
        ) && pair_key_of(groups[g][0]) >= key by {
            if g > 0 {
                assert(groups[g] == rest[g - 1]);
            }
        }
        assert forall|g: int, h: int| 0 <= g < h < groups.len() implies pair_key_of(
            (#[trigger] groups[g])[0],
        ) < pair_key_of((#[trigger] groups[h])[0]) by {
            assert(groups[h] == rest[h - 1]);
            if g > 0 {
                assert(groups[g] == rest[g - 1]);
            }
        }
        assert forall|k: int| i <= k < candidates.len() implies has_group(groups, pair_key_of(#[trigger] candidates[k])) by {
            if k < end {
                assert(groups[0][0] == candidates[i]);
            } else {
                let g = choose|g: int|
                    0 <= g < rest.len() && pair_key_of(#[trigger] rest[g][0]) == pair_key_of(
                        candidates[k],
                    );
                assert(groups[g + 1][0] == rest[g][0]);
            }
        }
    }
}

/// `pair_groups` is a grouping of the candidates.
pub proof fn lemma_pair_groups(candidates: Seq<Candidate>)
    ensures
        is_grouping(candidates, pair_groups(candidates)),
{
    crate::sort::lemma_sorted_with(candidates, by_pair());
    let sorted = crate::sort::sorted_with(candidates, by_pair());
    let groups = pair_groups(candidates);
    lemma_groups_from(sorted, 0);
    assert forall|g: int| 0 <= g < groups.len() implies (#[trigger] groups[g]).len() > 0 && groups[g]
        == candidates.filter(crate::sort::keyed(by_pair(), pair_key_of(groups[g][0]))) by {
        let k = pair_key_of(groups[g][0]);
        assert(sorted.filter(crate::sort::keyed(by_pair(), k)) == candidates.filter(
            crate::sort::keyed(by_pair(), k),
        ));
    }
    assert forall|i: int| 0 <= i < candidates.len() implies has_group(groups, pair_key_of(#[trigger] candidates[i])) by {
        let j = lemma_key_survives(candidates, sorted, pair_key_of(candidates[i]), i);
        let g = choose|g: int|
            0 <= g < groups.len() && pair_key_of(#[trigger] groups[g][0]) == pair_key_of(
                sorted[j],
            );
        assert(pair_key_of(groups[g][0]) == pair_key_of(candidates[i]));
    }
}

/// Sequences with the same filter for a key both hold the key or both lack it.
proof fn lemma_key_survives(s: Seq<Candidate>, t: Seq<Candidate>, k: u128, i: int) -> (j: int)
    requires
        0 <= i < s.len(),
        pair_key_of(s[i]) == k,
        s.filter(crate::sort::keyed(by_pair(), k)) == t.filter(crate::sort::keyed(by_pair(), k)),
    ensures
        0 <= j < t.len(),
        pair_key_of(t[j]) == k,
{
    let pred = crate::sort::keyed(by_pair(), k);
    Seq::lemma_filter_contains(s, pred, i);
    let f = s.filter(pred);
    assert(f.contains(s[i]));
    if forall|j: int| 0 <= j < t.len() ==> !pred(#[trigger] t[j]) {
        crate::sort::lemma_filter_none(t, pred);
        assert(false);
    }
    choose|j: int| 0 <= j < t.len() && pred(#[trigger] t[j])
}

/// There is only one grouping.
pub proof fn lemma_grouping_unique(
    candidates: Seq<Candidate>,
    a: Seq<Seq<Candidate>>,
    b: Seq<Seq<Candidate>>,
)
    requires
        is_grouping(candidates, a),
        is_grouping(candidates, b),
    ensures
        a == b,
{
    lemma_grouping_prefix(candidates, a, b, a.len() as int);
    lemma_grouping_prefix(candidates, b, a, b.len() as int);
    assert(a.take(a.len() as int) =~= a);
    assert(b.take(b.len() as int) =~= b);
}

/// The key of a group occurs among the groups of any other grouping.
proof fn lemma_group_key_in(
    candidates: Seq<Candidate>,
    a: Seq<Seq<Candidate>>,
    b: Seq<Seq<Candidate>>,
    g: int,
) -> (h: int)
    requires
        is_grouping(candidates, a),
        is_grouping(candidates, b),
        0 <= g < a.len(),
    ensures
        0 <= h < b.len(),
        pair_key_of(b[h][0]) == pair_key_of(a[g][0]),
        b[h] == a[g],
{
    let k = pair_key_of(a[g][0]);
    let pred = crate::sort::keyed(by_pair(), k);
    assert(a[g] == candidates.filter(pred));
    if forall|i: int| 0 <= i < candidates.len() ==> !pred(#[trigger] candidates[i]) {
        crate::sort::lemma_filter_none(candidates, pred);
    }
    let i = choose|i: int| 0 <= i < candidates.len() && pred(#[trigger] candidates[i]);
    let h = choose|h: int|
        0 <= h < b.len() && pair_key_of(#[trigger] b[h][0]) == pair_key_of(candidates[i]);
    assert(b[h] == candidates.filter(pred));
    h
}

proof fn lemma_grouping_prefix(
    candidates: Seq<Candidate>,
    a: Seq<Seq<Candidate>>,
    b: Seq<Seq<Candidate>>,
    n: int,
)
    requires
        is_grouping(candidates, a),
        is_grouping(candidates, b),
        0 <= n <= a.len(),
    ensures
        n <= b.len(),
        a.take(n) == b.take(n),
    decreases n,
{
    if n > 0 {
        lemma_grouping_prefix(candidates, a, b, n - 1);
        assert forall|i: int| 0 <= i < n - 1 implies a[i] == b[i] by {
            assert(a.take(n - 1)[i] == b.take(n - 1)[i]);
        }
        let h = lemma_group_key_in(candidates, a, b, n - 1);
        if h < n - 1 {
            assert(a[h] == b[h]);
            assert(pair_key_of(a[h][0]) < pair_key_of(a[n - 1][0]));
        }
        assert(n <= b.len());
        let g = lemma_group_key_in(candidates, b, a, n - 1);
        if h > n - 1 {
            assert(pair_key_of(b[n - 1][0]) < pair_key_of(b[h][0]));
            if g < n - 1 {
                assert(a[g] == b[g]);
                assert(pair_key_of(b[g][0]) < pair_key_of(b[n - 1][0]));
            } else if g > n - 1 {
                assert(pair_key_of(a[n - 1][0]) < pair_key_of(a[g][0]));
            }
        }
        assert(h == n - 1);
        assert(a.take(n) =~= b.take(n));
    }
}

/// The hash by which candidates are spread over buckets.
spec fn pair_hash() -> spec_fn(Candidate) -> u64 {
    |candidate: Candidate| mixed(pair_key_of(candidate))
}

spec fn mixed(key: u128) -> u64 {
    (key as u64).wrapping_mul(0x9E37_79B9_7F4A_7C15u64)
}

/// The groups hold all candidates whose bucket is below `b`, each file pair in one group.
spec fn is_partial_grouping(
    candidates: Seq<Candidate>,
    groups: Seq<Seq<Candidate>>,
    bits: u32,
    b: int,
) -> bool {
    &&& forall|g: int|
        0 <= g < groups.len() ==> (#[trigger] groups[g]).len() > 0 && groups[g]
            == candidates.filter(crate::sort::keyed(by_pair(), pair_key_of(groups[g][0])))
            && bucket_index(mixed(pair_key_of(groups[g][0])), bits) < b
    &&& forall|g: int, h: int|
        0 <= g < h < groups.len() ==> pair_key_of((#[trigger] groups[g])[0]) != pair_key_of(
            (#[trigger] groups[h])[0],
        )
    &&& forall|i: int|
        0 <= i < candidates.len() && bucket_index(
            mixed(pair_key_of(#[trigger] candidates[i])),
            bits,
        ) < b ==> has_group(groups, pair_key_of(candidates[i]))
}

proof fn lemma_extend_partial(
    candidates: Seq<Candidate>,
    groups: Seq<Seq<Candidate>>,
    added: Seq<Seq<Candidate>>,
    bits: u32,
    b: int,
)
    requires
        1 <= bits <= 16,
        is_partial_grouping(candidates, groups, bits, b),
        is_grouping(candidates.filter(in_bucket(pair_hash(), bits, b)), added),
    ensures
        is_partial_grouping(candidates, groups + added, bits, b + 1),
{
    let pred = in_bucket(pair_hash(), bits, b);
    let part = candidates.filter(pred);
    let whole = groups + added;
    assert forall|g: int| 0 <= g < added.len() implies (#[trigger] added[g]).len() > 0 && added[g]
        == candidates.filter(crate::sort::keyed(by_pair(), pair_key_of(added[g][0])))
        && bucket_index(mixed(pair_key_of(added[g][0])), bits) == b by {
        let k = pair_key_of(added[g][0]);
        let q = crate::sort::keyed(by_pair(), k);
        assert(added[g] == part.filter(q));
        if forall|i: int| 0 <= i < part.len() ==> !q(#[trigger] part[i]) {
            crate::sort::lemma_filter_none(part, q);
        }
        let i = choose|i: int| 0 <= i < part.len() && q(#[trigger] part[i]);
        Seq::lemma_filter_pred(candidates, pred, i);
        assert(pred(part[i]));
        assert(bucket_index(mixed(k), bits) == b);
        lemma_filter_twice(candidates, pred, q);
        assert(forall|x: Candidate| #[trigger] q(x) ==> pred(x));
    }
    assert forall|g: int| 0 <= g < whole.len() implies (#[trigger] whole[g]).len() > 0 && whole[g]
        == candidates.filter(crate::sort::keyed(by_pair(), pair_key_of(whole[g][0])))
        && bucket_index(mixed(pair_key_of(whole[g][0])), bits) < b + 1 by {
        if g < groups.len() {
            assert(whole[g] == groups[g]);
        } else {
            assert(whole[g] == added[g - groups.len()]);
        }
    }
    assert forall|g: int, h: int| 0 <= g < h < whole.len() implies pair_key_of(
        (#[trigger] whole[g])[0],
    ) != pair_key_of((#[trigger] whole[h])[0]) by {
        if h < groups.len() {
            assert(whole[g] == groups[g] && whole[h] == groups[h]);
        } else if g < groups.len() {
            assert(whole[g] == groups[g] && whole[h] == added[h - groups.len()]);
        } else {
            assert(whole[g] == added[g - groups.len()] && whole[h] == added[h - groups.len()]);
        }
    }
    assert forall|i: int|
        0 <= i < candidates.len() && bucket_index(
            mixed(pair_key_of(#[trigger] candidates[i])),
            bits,
        ) < b + 1 implies has_group(whole, pair_key_of(candidates[i])) by {
        if bucket_index(mixed(pair_key_of(candidates[i])), bits) < b {
            let g = choose|g: int|
                0 <= g < groups.len() && pair_key_of(#[trigger] groups[g][0]) == pair_key_of(
                    candidates[i],
                );
            assert(whole[g][0] == groups[g][0]);
        } else {
            assert(pred(candidates[i]));
            Seq::lemma_filter_contains(candidates, pred, i);
            let j = choose|j: int| 0 <= j < part.len() && part[j] == candidates[i];
            let g = choose|g: int|
                0 <= g < added.len() && pair_key_of(#[trigger] added[g][0]) == pair_key_of(part[j]);
            assert(whole[groups.len() + g][0] == added[g][0]);
        }
    }
}

/// Sorts a few candidates by file pair.
fn sort_pair_bucket(candidates: &Vec<Candidate>) -> (sorted: Vec<Candidate>)
    ensures
        sorted@ == crate::sort::sorted_with(candidates@, by_pair()),
{
    let mut keys: Vec<u128> = Vec::new();
    let ghost wanted = candidates@.map_values(by_pair());
    let mut i: usize = 0;
    while i < candidates.len()
        invariant
            i <= candidates@.len(),
            wanted == candidates@.map_values(by_pair()),
            keys@ == wanted.take(i as int),
        decreases candidates@.len() - i,
    {
        keys.push(pair_key(&candidates[i]) as u128);
        i = i + 1;
        assert(keys@ =~= wanted.take(i as int));
    }
    assert(keys@ =~= wanted);
    sort_by_keys(candidates, &keys)
}

/// All candidates are in the groups, each file pair in one group; the order is open.
spec fn is_unordered_grouping(candidates: Seq<Candidate>, groups: Seq<Seq<Candidate>>) -> bool {
    &&& forall|g: int|
        0 <= g < groups.len() ==> (#[trigger] groups[g]).len() > 0 && groups[g]
            == candidates.filter(crate::sort::keyed(by_pair(), pair_key_of(groups[g][0])))
    &&& forall|g: int, h: int|
        0 <= g < h < groups.len() ==> pair_key_of((#[trigger] groups[g])[0]) != pair_key_of(
            (#[trigger] groups[h])[0],
        )
    &&& forall|i: int|
        0 <= i < candidates.len() ==> has_group(groups, pair_key_of(#[trigger] candidates[i]))
}

proof fn lemma_ordered_grouping(
    candidates: Seq<Candidate>,
    groups: Seq<Seq<Candidate>>,
    keys: Seq<u128>,
    order: Seq<int>,
)
    requires
        is_unordered_grouping(candidates, groups),
        keys.len() == groups.len(),
        forall|g: int| 0 <= g < groups.len() ==> #[trigger] keys[g] == pair_key_of(groups[g][0]),
        crate::sort::is_order(keys, order, 0, keys.len() as int),
    ensures
        is_grouping(candidates, crate::sort::arrange(groups, order)),
{
    let result = crate::sort::arrange(groups, order);
    assert forall|g: int| 0 <= g < result.len() implies (#[trigger] result[g]).len() > 0
        && result[g] == candidates.filter(
        crate::sort::keyed(by_pair(), pair_key_of(result[g][0])),
    ) by {
        assert(result[g] == groups[order[g]]);
    }
    assert forall|g: int, h: int| 0 <= g < h < result.len() implies pair_key_of(
        (#[trigger] result[g])[0],
    ) < pair_key_of((#[trigger] result[h])[0]) by {
        assert(result[g] == groups[order[g]] && result[h] == groups[order[h]]);
        assert(crate::sort::before(keys, order[g], order[h]));
        assert(keys[order[g]] == pair_key_of(groups[order[g]][0]));
        assert(keys[order[h]] == pair_key_of(groups[order[h]][0]));
        if order[g] < order[h] {
            assert(pair_key_of(groups[order[g]][0]) != pair_key_of(groups[order[h]][0]));
        } else {
            assert(pair_key_of(groups[order[h]][0]) != pair_key_of(groups[order[g]][0]));
        }
    }
    assert forall|i: int| 0 <= i < candidates.len() implies has_group(result, pair_key_of(#[trigger] candidates[i])) by {
        let h = choose|h: int|
            0 <= h < groups.len() && pair_key_of(#[trigger] groups[h][0]) == pair_key_of(
                candidates[i],
            );
        assert(order.contains(h));
        let g = choose|g: int| 0 <= g < order.len() && order[g] == h;
        assert(result[g][0] == groups[h][0]);
    }
}

/// Puts groups of distinct file pairs in ascending order.
fn order_groups(groups: &Vec<Vec<Candidate>>, Ghost(candidates): Ghost<Seq<Candidate>>) -> (ordered:
    Vec<Vec<Candidate>>)
    requires
        is_unordered_grouping(candidates, groups_view(groups@)),
    ensures
        is_grouping(candidates, groups_view(ordered@)),
{
    let ghost view = groups_view(groups@);
    let mut keys: Vec<u128> = Vec::new();
    let mut i: usize = 0;
    while i < groups.len()
        invariant
            is_unordered_grouping(candidates, view),
            view == groups_view(groups@),
            i <= groups@.len(),
            keys@.len() == i,
            forall|g: int| 0 <= g < i ==> #[trigger] keys@[g] == pair_key_of(view[g][0]),
        decreases groups@.len() - i,
    {
        assert(view[i as int] == groups@[i as int]@);
        keys.push(pair_key(&groups[i][0]) as u128);
        i = i + 1;
    }
    let order = sorted_order(&keys);
    let ghost p = crate::sort::positions(order@);
    let mut ordered: Vec<Vec<Candidate>> = Vec::new();
    let mut k: usize = 0;
    while k < order.len()
        invariant
            keys@.len() == groups@.len(),
            view == groups_view(groups@),
            p == crate::sort::positions(order@),
            crate::sort::is_order(keys@, p, 0, keys@.len() as int),
            k <= order@.len(),
            groups_view(ordered@) == crate::sort::arrange(view, p).take(k as int),
        decreases order@.len() - k,
    {
        assert(p[k as int] == order@[k as int]);
        let group = &groups[order[k]];
        let copy = copy_range(group, 0, group.len());
        assert(copy@ =~= view[p[k as int]]);
        let ghost ordered0 = ordered@;
        ordered.push(copy);
        k = k + 1;
        assert(groups_view(ordered@) =~= groups_view(ordered0).push(copy@));
        assert(groups_view(ordered@) =~= crate::sort::arrange(view, p).take(k as int));
    }
    proof {
        assert(groups_view(ordered@) =~= crate::sort::arrange(view, p));
        lemma_ordered_grouping(candidates, view, keys@, p);
    }
    ordered
}

proof fn lemma_partial_start(candidates: Seq<Candidate>, bits: u32)
    requires
        1 <= bits <= 16,
    ensures
        is_partial_grouping(candidates, Seq::empty(), bits, 0),
{
    assert forall|i: int| 0 <= i < candidates.len() implies bucket_index(
        mixed(pair_key_of(#[trigger] candidates[i])),
        bits,
    ) >= 0 by {
        lemma_bucket_index(mixed(pair_key_of(candidates[i])), bits);
    }
}

proof fn lemma_partial_end(candidates: Seq<Candidate>, groups: Seq<Seq<Candidate>>, bits: u32)
    requires
        1 <= bits <= 16,
        is_partial_grouping(candidates, groups, bits, (1u32 << bits) as int),
    ensures
        is_unordered_grouping(candidates, groups),
{
    assert forall|i: int| 0 <= i < candidates.len() implies has_group(
        groups,
        pair_key_of(#[trigger] candidates[i]),
    ) by {
        lemma_bucket_index(mixed(pair_key_of(candidates[i])), bits);
    }
}

/// The hashes that spread the candidates over buckets.
fn pair_hashes(candidates: &Vec<Candidate>) -> (hashes: Vec<u64>)
    ensures
        hashes@ == candidates@.map_values(pair_hash()),
{
    let mut hashes: Vec<u64> = Vec::new();
    let mut i: usize = 0;
    while i < candidates.len()
        invariant
            i <= candidates@.len(),
            hashes@ == candidates@.map_values(pair_hash()).take(i as int),
        decreases candidates@.len() - i,
    {
        let key: u64 = pair_key(&candidates[i]);
        hashes.push(key.wrapping_mul(BUCKET_MIX));
        i = i + 1;
        assert(hashes@ =~= candidates@.map_values(pair_hash()).take(i as int));
    }
    assert(hashes@ =~= candidates@.map_values(pair_hash()));
    hashes
}

/// The groups of many candidates, found by way of buckets.
fn group_by_buckets(candidates: &Vec<Candidate>) -> (groups: Vec<Vec<Candidate>>)
    ensures
        is_unordered_grouping(candidates@, groups_view(groups@)),
{
    let bits = bucket_bits(candidates.len());
    let hashes = pair_hashes(candidates);
    let (parted, boundaries) = bucket_partition(candidates, &hashes, bits, Ghost(pair_hash()));
    proof {
        lemma_power(bits);
        lemma_partial_start(candidates@, bits);
    }
    let count: usize = (1u32 << bits) as usize;
    let mut groups: Vec<Vec<Candidate>> = Vec::new();
    let mut b: usize = 0;
    assert(groups_view(groups@) =~= Seq::empty());
    while b < count
        invariant
            1 <= bits <= 16,
            count == (1u32 << bits),
            b <= count,
            parted@.len() == candidates@.len(),
            boundaries@.len() == count + 1,
            forall|b: int|
                0 <= b < count ==> (#[trigger] boundaries@[b]) <= boundaries@[b + 1]
                    <= candidates@.len() && parted@.subrange(
                    boundaries@[b] as int,
                    boundaries@[b + 1] as int,
                ) == candidates@.filter(in_bucket(pair_hash(), bits, b)),
            is_partial_grouping(candidates@, groups_view(groups@), bits, b as int),
        decreases count - b,
    {
        assert(boundaries@[b as int] <= boundaries@[b + 1]);
        let part = copy_range(&parted, boundaries[b], boundaries[b + 1]);
        let sorted = sort_pair_bucket(&part);
        let mut added = split_groups(&sorted);
        let ghost groups0 = groups@;
        let ghost added0 = added@;
        proof {
            lemma_pair_groups(part@);
            lemma_extend_partial(
                candidates@,
                groups_view(groups0),
                groups_view(added0),
                bits,
                b as int,
            );
        }
        groups.append(&mut added);
        assert(groups_view(groups@) =~= groups_view(groups0) + groups_view(added0));
        b = b + 1;
    }
    proof {
        lemma_partial_end(candidates@, groups_view(groups@), bits);
    }
    groups
}

/// Groups the candidates by file pair.
pub fn group_candidates(candidates: Vec<Candidate>) -> (groups: Vec<Vec<Candidate>>)
    ensures
        groups_view(groups@) == pair_groups(candidates@),
{
    if candidates.len() < BUCKET_SORT_MIN {
        let mut sorted = candidates;
        par_sort_candidates(&mut sorted);
        return split_groups(&sorted);
    }
    let groups = group_by_buckets(&candidates);
    let ordered = order_groups(&groups, Ghost(candidates@));
    proof {
        lemma_pair_groups(candidates@);
        lemma_grouping_unique(candidates@, groups_view(ordered@), pair_groups(candidates@));
    }
    ordered
}

} // verus!
