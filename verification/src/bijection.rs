//! A one-to-one mapping between two alphabets of token hashes.
use vstd::prelude::*;

verus! {

/// Number of index bits of a freshly allocated table.
const MIN_BITS: u32 = 8;

/// Largest number of index bits a table may reach.
const MAX_BITS: u32 = 40;

const SLOT_MIX: u64 = 0x9E37_79B9_7F4A_7C15;

/// First slot probed for `key` in a table of `2^bits` slots.
pub open spec fn home(key: u64, bits: u32) -> int {
    (key.wrapping_mul(0x9E37_79B9_7F4A_7C15u64) >> ((64 - bits) as u64)) as int
}

/// Number of forward steps from slot `from` to slot `to` around a ring of `cap` slots.
pub open spec fn ring_distance(from: int, to: int, cap: int) -> int {
    if to >= from { to - from } else { to - from + cap }
}

/// The slot `steps` places after `from` around a ring of `cap` slots.
pub open spec fn ring_step(from: int, steps: int, cap: int) -> int {
    if from + steps < cap { from + steps } else { from + steps - cap }
}

/// Number of slots below `n` stamped with `generation`.
pub open spec fn live_count(stamps: Seq<u32>, generation: u32, n: int) -> int
    decreases n,
{
    if n <= 0 {
        0
    } else {
        live_count(stamps, generation, n - 1) + if stamps[n - 1] == generation { 1int } else { 0int }
    }
}

proof fn lemma_live_count_bounds(stamps: Seq<u32>, generation: u32, n: int)
    requires
        0 <= n <= stamps.len(),
    ensures
        0 <= live_count(stamps, generation, n) <= n,
        live_count(stamps, generation, n) < n ==> exists|i: int|
            0 <= i < n && #[trigger] stamps[i] != generation,
        (forall|i: int| 0 <= i < n ==> stamps[i] != generation) ==> live_count(
            stamps,
            generation,
            n,
        ) == 0,
    decreases n,
{
    if n > 0 {
        lemma_live_count_bounds(stamps, generation, n - 1);
        if live_count(stamps, generation, n) < n && stamps[n - 1] == generation {
            let i = choose|i: int| 0 <= i < n - 1 && #[trigger] stamps[i] != generation;
            assert(stamps[i] != generation);
        }
    }
}

proof fn lemma_live_count_update(stamps: Seq<u32>, generation: u32, at: int, n: int)
    requires
        0 <= n <= stamps.len(),
        0 <= at < stamps.len(),
        stamps[at] != generation,
    ensures
        live_count(stamps.update(at, generation), generation, n) == live_count(stamps, generation, n)
            + if at < n { 1int } else { 0int },
    decreases n,
{
    if n > 0 {
        lemma_live_count_update(stamps, generation, at, n - 1);
    }
}

/// The key/value pairs held by the slots below `n` that carry `generation`.
pub open spec fn entries(
    keys: Seq<u64>,
    values: Seq<u64>,
    stamps: Seq<u32>,
    generation: u32,
    n: int,
) -> Map<u64, u64>
    decreases n,
{
    if n <= 0 {
        Map::empty()
    } else if stamps[n - 1] == generation {
        entries(keys, values, stamps, generation, n - 1).insert(keys[n - 1], values[n - 1])
    } else {
        entries(keys, values, stamps, generation, n - 1)
    }
}

/// No key is held by two live slots.
pub open spec fn unique_keys(keys: Seq<u64>, stamps: Seq<u32>, generation: u32) -> bool {
    forall|i: int, j: int|
        #![trigger stamps[i], stamps[j]]
        0 <= i < stamps.len() && 0 <= j < stamps.len() && stamps[i] == generation && stamps[j]
            == generation && keys[i] == keys[j] ==> i == j
}

proof fn lemma_entries(
    keys: Seq<u64>,
    values: Seq<u64>,
    stamps: Seq<u32>,
    generation: u32,
    n: int,
)
    requires
        0 <= n <= stamps.len(),
        keys.len() == stamps.len(),
        values.len() == stamps.len(),
        unique_keys(keys, stamps, generation),
    ensures
        forall|k: u64| #[trigger]
            entries(keys, values, stamps, generation, n).dom().contains(k) <==> exists|i: int|
                0 <= i < n && #[trigger] stamps[i] == generation && keys[i] == k,
        forall|i: int|
            0 <= i < n && #[trigger] stamps[i] == generation ==> entries(
                keys,
                values,
                stamps,
                generation,
                n,
            ).dom().contains(keys[i]) && entries(keys, values, stamps, generation, n)[keys[i]]
                == values[i],
    decreases n,
{
    if n > 0 {
        lemma_entries(keys, values, stamps, generation, n - 1);
        let before = entries(keys, values, stamps, generation, n - 1);
        let after = entries(keys, values, stamps, generation, n);
        assert forall|k: u64| #[trigger] after.dom().contains(k) implies exists|i: int|
            0 <= i < n && #[trigger] stamps[i] == generation && keys[i] == k by {
            if before.dom().contains(k) {
                let i = choose|i: int|
                    0 <= i < n - 1 && #[trigger] stamps[i] == generation && keys[i] == k;
                assert(stamps[i] == generation);
            } else {
                assert(stamps[n - 1] == generation);
            }
        }
        assert forall|k: u64|
            (exists|i: int| 0 <= i < n && #[trigger] stamps[i] == generation && keys[i] == k)
            implies #[trigger] after.dom().contains(k) by {
            let i = choose|i: int|
                0 <= i < n && #[trigger] stamps[i] == generation && keys[i] == k;
            if i < n - 1 {
                assert(before.dom().contains(keys[i]));
            }
        }
    }
}

proof fn lemma_home_in_range(key: u64, bits: u32)
    requires
        MIN_BITS <= bits <= MAX_BITS,
    ensures
        0 <= home(key, bits) < (1u64 << bits),
        256 <= (1u64 << bits) <= 0x100_0000_0000,
{
    let mixed = key.wrapping_mul(0x9E37_79B9_7F4A_7C15u64);
    let shift = (64 - bits) as u64;
    assert(8 <= bits <= 40 && shift == 64 - bits ==> (mixed >> shift) < (1u64 << bits) && 256 <= (
    1u64 << bits) && (1u64 << bits) <= 0x100_0000_0000) by (bit_vector);
}

/// An open-addressing hash table whose entries are valid for one generation only.
pub struct BijectionTable {
    pub keys: Vec<u64>,
    pub values: Vec<u64>,
    pub stamps: Vec<u32>,
    pub bits: u32,
}

impl BijectionTable {
    /// The mapping that the table holds for `generation`.
    pub open spec fn map(&self, generation: u32) -> Map<u64, u64> {
        entries(
            self.keys@,
            self.values@,
            self.stamps@,
            generation,
            self.stamps@.len() as int,
        )
    }

    /// Table invariant: `live` entries of `generation`, each reachable by probing from the home
    /// slot of its key, and at most half of the slots in use.
    pub open spec fn inv(&self, generation: u32, live: int) -> bool {
        &&& self.keys@.len() == self.stamps@.len()
        &&& self.values@.len() == self.stamps@.len()
        &&& 2 * live <= self.stamps@.len()
        &&& live == live_count(self.stamps@, generation, self.stamps@.len() as int)
        &&& self.stamps@.len() > 0 ==> (8 <= self.bits <= 40 && self.stamps@.len() == (1u64
            << self.bits))
        &&& forall|i: int| 0 <= i < self.stamps@.len() ==> #[trigger] self.stamps@[i] <= generation
        &&& unique_keys(self.keys@, self.stamps@, generation)
        &&& forall|i: int, d: int|
            #![trigger self.stamps@[i], ring_step(home(self.keys@[i], self.bits), d, self.stamps@.len() as int)]
            0 <= i < self.stamps@.len() && self.stamps@[i] == generation && 0 <= d < ring_distance(
                home(self.keys@[i], self.bits),
                i,
                self.stamps@.len() as int,
            ) ==> self.stamps@[ring_step(
                home(self.keys@[i], self.bits),
                d,
                self.stamps@.len() as int,
            )] == generation
    }

    pub fn new() -> (table: Self)
        ensures
            forall|generation: u32| #[trigger] table.inv(generation, 0),
            forall|generation: u32| #[trigger] table.map(generation) == Map::<u64, u64>::empty(),
    {
        BijectionTable { keys: Vec::new(), values: Vec::new(), stamps: Vec::new(), bits: 0 }
    }

    fn slot(key: u64, bits: u32) -> (index: usize)
        requires
            8 <= bits <= 40,
            (1u64 << bits) <= usize::MAX,
        ensures
            index == home(key, bits),
            index < (1u64 << bits),
    {
        proof {
            lemma_home_in_range(key, bits);
        }
        (key.wrapping_mul(SLOT_MIX) >> ((64 - bits) as u64)) as usize
    }

    /// An empty table of `2^bits` slots.
    fn allocate(bits: u32) -> (table: Self)
        requires
            8 <= bits <= 40,
            (1u64 << bits) <= usize::MAX,
        ensures
            table.bits == bits,
            table.stamps@.len() == (1u64 << bits),
            forall|generation: u32| generation > 0 ==> #[trigger] table.inv(generation, 0),
            forall|generation: u32|
                generation > 0 ==> #[trigger] table.map(generation) == Map::<u64, u64>::empty(),
    {
        proof {
            lemma_home_in_range(0, bits);
        }
        let cap: usize = (1u64 << bits) as usize;
        let table = BijectionTable {
            keys: vec![0u64; cap],
            values: vec![0u64; cap],
            stamps: vec![0u32; cap],
            bits,
        };
        proof {
            assert forall|generation: u32| generation > 0 implies #[trigger] table.inv(
                generation,
                0,
            ) by {
                lemma_live_count_bounds(table.stamps@, generation, table.stamps@.len() as int);
            }
            assert forall|generation: u32| generation > 0 implies #[trigger] table.map(generation)
                == Map::<u64, u64>::empty() by {
                lemma_entries(
                    table.keys@,
                    table.values@,
                    table.stamps@,
                    generation,
                    table.stamps@.len() as int,
                );
                assert(table.map(generation) =~= Map::<u64, u64>::empty());
            }
        }
        table
    }

    /// Finds the slot of `key`, or the free slot at which probing for it ends.
    fn probe(&self, generation: u32, key: u64, Ghost(live): Ghost<int>) -> (index: usize)
        requires
            self.inv(generation, live),
            self.stamps@.len() > 0,
        ensures
            index < self.stamps@.len(),
            self.stamps@[index as int] == generation ==> self.keys@[index as int] == key,
            self.stamps@[index as int] != generation ==> !self.map(generation).dom().contains(key),
            forall|d: int|
                #![trigger ring_step(home(key, self.bits), d, self.stamps@.len() as int)]
                0 <= d < ring_distance(
                    home(key, self.bits),
                    index as int,
                    self.stamps@.len() as int,
                ) ==> self.stamps@[ring_step(home(key, self.bits), d, self.stamps@.len() as int)]
                    == generation,
    {
        let cap: usize = self.stamps.len();
        proof {
            lemma_home_in_range(key, self.bits);
        }
        let mut index: usize = Self::slot(key, self.bits);
        let ghost base = index as int;
        let ghost mut walked: int = 0;
        proof {
            lemma_live_count_bounds(self.stamps@, generation, cap as int);
        }
        let ghost free = choose|i: int| 0 <= i < cap && #[trigger] self.stamps@[i] != generation;
        while self.stamps[index] == generation && self.keys[index] != key
            invariant
                self.inv(generation, live),
                cap == self.stamps@.len(),
                base == home(key, self.bits),
                0 <= base < cap,
                index < cap,
                0 <= walked < cap,
                index == ring_step(base, walked, cap as int),
                walked <= ring_distance(base, free, cap as int),
                0 <= free < cap,
                self.stamps@[free] != generation,
                forall|d: int|
                    #![trigger ring_step(base, d, cap as int)]
                    0 <= d < walked ==> self.stamps@[ring_step(base, d, cap as int)] == generation
                        && self.keys@[ring_step(base, d, cap as int)] != key,
            decreases cap - walked,
        {
            assert(index != free);
            let next: usize = index + 1;
            index = if next == cap { 0 } else { next };
            proof {
                walked = walked + 1;
            }
        }
        assert(ring_distance(base, index as int, cap as int) == walked);
        proof {
            if self.stamps@[index as int] != generation {
                lemma_entries(
                    self.keys@,
                    self.values@,
                    self.stamps@,
                    generation,
                    cap as int,
                );
                if self.map(generation).dom().contains(key) {
                    let j = choose|j: int|
                        0 <= j < cap && #[trigger] self.stamps@[j] == generation && self.keys@[j]
                            == key;
                    let dj = ring_distance(base, j, cap as int);
                    assert(ring_step(base, dj, cap as int) == j);
                    if dj < walked {
                        assert(self.keys@[ring_step(base, dj, cap as int)] != key);
                    } else if walked < dj {
                        assert(self.stamps@[j] == generation);
                        assert(self.stamps@[ring_step(base, walked, cap as int)] == generation);
                    }
                    assert(false);
                }
            }
        }
        index
    }

    /// The value stored under `key` in this generation.
    fn find(&self, generation: u32, key: u64, Ghost(live): Ghost<int>) -> (value: Option<u64>)
        requires
            self.inv(generation, live),
        ensures
            value == (if self.map(generation).dom().contains(key) {
                Some(self.map(generation)[key])
            } else {
                None
            }),
    {
        if self.keys.is_empty() {
            return None;
        }
        let index = self.probe(generation, key, Ghost(live));
        proof {
            lemma_entries(
                self.keys@,
                self.values@,
                self.stamps@,
                generation,
                self.stamps@.len() as int,
            );
        }
        if self.stamps[index] == generation {
            Some(self.values[index])
        } else {
            None
        }
    }

    /// Stores a new entry in a table that has room for it.
    fn place(&mut self, generation: u32, key: u64, value: u64, Ghost(live): Ghost<int>)
        requires
            old(self).inv(generation, live),
            2 * (live + 1) <= old(self).stamps@.len(),
            !old(self).map(generation).dom().contains(key),
        ensures
            final(self).inv(generation, live + 1),
            final(self).map(generation) == old(self).map(generation).insert(key, value),
            final(self).bits == old(self).bits,
            final(self).stamps@.len() == old(self).stamps@.len(),
    {
        let index = self.probe(generation, key, Ghost(live));
        proof {
            lemma_live_count_bounds(self.stamps@, generation, self.stamps@.len() as int);
            lemma_entries(
                self.keys@,
                self.values@,
                self.stamps@,
                generation,
                self.stamps@.len() as int,
            );
            lemma_live_count_update(
                self.stamps@,
                generation,
                index as int,
                self.stamps@.len() as int,
            );
        }
        self.stamps[index] = generation;
        self.keys[index] = key;
        self.values[index] = value;
        proof {
            let keys0 = old(self).keys@;
            let values0 = old(self).values@;
            let stamps0 = old(self).stamps@;
            let cap = stamps0.len() as int;
            assert(self.stamps@ == stamps0.update(index as int, generation));
            assert(self.keys@ == keys0.update(index as int, key));
            assert(self.values@ == values0.update(index as int, value));
            assert forall|i: int, j: int|
                #![trigger self.stamps@[i], self.stamps@[j]]
                0 <= i < cap && 0 <= j < cap && self.stamps@[i] == generation && self.stamps@[j]
                    == generation && self.keys@[i] == self.keys@[j] implies i == j by {
                if i != index && j != index {
                    assert(stamps0[i] == generation && stamps0[j] == generation);
                } else if i != j {
                    let other = if i == index { j } else { i };
                    assert(stamps0[other] == generation);
                    assert(old(self).map(generation).dom().contains(keys0[other]));
                }
            }
            assert forall|i: int, d: int|
                #![trigger self.stamps@[i], ring_step(home(self.keys@[i], self.bits), d, cap)]
                0 <= i < cap && self.stamps@[i] == generation && 0 <= d < ring_distance(
                    home(self.keys@[i], self.bits),
                    i,
                    cap,
                ) implies self.stamps@[ring_step(home(self.keys@[i], self.bits), d, cap)]
                == generation by {
                lemma_home_in_range(self.keys@[i], self.bits);
                let p = ring_step(home(self.keys@[i], self.bits), d, cap);
                assert(0 <= p < cap);
                if i == index {
                    assert(stamps0[p] == generation);
                } else {
                    assert(stamps0[i] == generation);
                    assert(self.keys@[i] == keys0[i]);
                    assert(stamps0[ring_step(home(keys0[i], old(self).bits), d, cap)] == generation);
                }
            }
            lemma_entries(self.keys@, self.values@, self.stamps@, generation, cap);
            let m0 = old(self).map(generation);
            let m1 = self.map(generation);
            assert forall|k: u64| m1.dom().contains(k) == m0.insert(key, value).dom().contains(
                k,
            ) by {
                if m1.dom().contains(k) {
                    let i = choose|i: int|
                        0 <= i < cap && #[trigger] self.stamps@[i] == generation && self.keys@[i]
                            == k;
                    if i != index {
                        assert(stamps0[i] == generation);
                    }
                }
                if m0.insert(key, value).dom().contains(k) {
                    if k == key {
                        assert(self.stamps@[index as int] == generation);
                    } else {
                        let i = choose|i: int|
                            0 <= i < cap && #[trigger] stamps0[i] == generation && keys0[i] == k;
                        assert(self.stamps@[i] == generation);
                    }
                }
            }
            assert forall|k: u64| m1.dom().contains(k) implies m1[k] == m0.insert(key, value)[k] by {
                let i = choose|i: int|
                    0 <= i < cap && #[trigger] self.stamps@[i] == generation && self.keys@[i] == k;
                if i != index {
                    assert(stamps0[i] == generation);
                }
            }
            assert(m1 =~= m0.insert(key, value));
        }
    }

    /// Stores `value` under the new key `key`, growing the table once it is half full.
    fn insert_new(&mut self, generation: u32, live: usize, key: u64, value: u64)
        requires
            old(self).inv(generation, live as int),
            generation > 0,
            live < 0x1_0000_0000,
            8 * (live + 1) <= usize::MAX,
            !old(self).map(generation).dom().contains(key),
        ensures
            final(self).inv(generation, live + 1),
            final(self).map(generation) == old(self).map(generation).insert(key, value),
    {
        if self.keys.is_empty() {
            assert((1u64 << 8u32) == 256) by (bit_vector);
            let table = BijectionTable::allocate(MIN_BITS);
            assert(self.map(generation) =~= Map::<u64, u64>::empty());
            *self = table;
        } else if (live + 1) * 2 > self.stamps.len() {
            self.grow(generation, Ghost(live as int));
        }
        self.place(generation, key, value, Ghost(live as int));
    }

    /// Moves the live entries to a table four times as large.
    fn grow(&mut self, generation: u32, Ghost(live): Ghost<int>)
        requires
            old(self).inv(generation, live),
            generation > 0,
            old(self).stamps@.len() > 0,
            old(self).stamps@.len() < 2 * (live + 1),
            live < 0x1_0000_0000,
            8 * (live + 1) <= usize::MAX,
        ensures
            final(self).inv(generation, live),
            final(self).map(generation) == old(self).map(generation),
            2 * (live + 1) <= final(self).stamps@.len(),
    {
        let cap: usize = self.stamps.len();
        proof {
            let bits = self.bits;
            lemma_home_in_range(0, bits);
            assert(8 <= bits <= 40 && (1u64 << bits) <= 0x2_0000_0000 ==> bits <= 33 && (1u64 << ((
            bits + 2) as u32)) == 4 * (1u64 << bits)) by (bit_vector);
            lemma_live_count_bounds(self.stamps@, generation, 0);
        }
        let mut table = BijectionTable::allocate(self.bits + 2);
        let mut index: usize = 0;
        while index < cap
            invariant
                self.inv(generation, live),
                generation > 0,
                cap == self.stamps@.len(),
                index <= cap,
                table.inv(generation, live_count(self.stamps@, generation, index as int)),
                table.map(generation) == entries(
                    self.keys@,
                    self.values@,
                    self.stamps@,
                    generation,
                    index as int,
                ),
                table.stamps@.len() == 4 * cap,
            decreases cap - index,
        {
            proof {
                lemma_live_count_bounds(self.stamps@, generation, index as int);
                lemma_entries(
                    self.keys@,
                    self.values@,
                    self.stamps@,
                    generation,
                    index as int,
                );
            }
            if self.stamps[index] == generation {
                proof {
                    if table.map(generation).dom().contains(self.keys@[index as int]) {
                        let i = choose|i: int|
                            0 <= i < index && #[trigger] self.stamps@[i] == generation
                                && self.keys@[i] == self.keys@[index as int];
                        assert(self.stamps@[index as int] == generation);
                        assert(false);
                    }
                }
                table.place(
                    generation,
                    self.keys[index],
                    self.values[index],
                    Ghost(live_count(self.stamps@, generation, index as int)),
                );
            }
            index = index + 1;
        }
        *self = table;
    }

    /// Forgets every entry, whatever its generation.
    fn invalidate(&mut self, Ghost(generation): Ghost<u32>, Ghost(live): Ghost<int>)
        requires
            old(self).inv(generation, live),
        ensures
            final(self).inv(1, 0),
            final(self).map(1) == Map::<u64, u64>::empty(),
    {
        let cap: usize = self.stamps.len();
        let mut index: usize = 0;
        while index < cap
            invariant
                cap == self.stamps@.len(),
                self.keys@ == old(self).keys@,
                self.values@ == old(self).values@,
                self.bits == old(self).bits,
                self.stamps@.len() == old(self).stamps@.len(),
                index <= cap,
                forall|i: int| 0 <= i < index ==> self.stamps@[i] == 0,
            decreases cap - index,
        {
            self.stamps[index] = 0;
            index = index + 1;
        }
        proof {
            lemma_live_count_bounds(self.stamps@, 1, cap as int);
            lemma_entries(self.keys@, self.values@, self.stamps@, 1, cap as int);
            assert(self.map(1) =~= Map::<u64, u64>::empty());
        }
    }

    /// A table without entries of a later generation is empty in that generation.
    proof fn lemma_later_generation(&self, generation: u32, live: int, later: u32)
        requires
            self.inv(generation, live),
            generation < later,
        ensures
            self.inv(later, 0),
            self.map(later) == Map::<u64, u64>::empty(),
    {
        let cap = self.stamps@.len() as int;
        assert forall|i: int| 0 <= i < cap implies self.stamps@[i] != later by {
            assert(self.stamps@[i] <= generation);
        }
        assert forall|i: int| 0 <= i < cap implies #[trigger] self.stamps@[i] <= later by {
            assert(self.stamps@[i] <= generation);
        }
        lemma_live_count_bounds(self.stamps@, later, cap);
        lemma_entries(self.keys@, self.values@, self.stamps@, later, cap);
        assert(self.map(later) =~= Map::<u64, u64>::empty());
    }
}

/// A growing one-to-one correspondence between two sets of hashes.
pub struct Bijection {
    pub forward: BijectionTable,
    pub reverse: BijectionTable,
    pub generation: u32,
    pub live: usize,
}

impl View for Bijection {
    type V = Map<u64, u64>;

    /// The correspondence, read from the first alphabet to the second.
    open spec fn view(&self) -> Map<u64, u64> {
        self.forward.map(self.generation)
    }
}

impl Bijection {
    pub open spec fn wf(&self) -> bool {
        let back = self.reverse.map(self.generation);
        &&& self.generation > 0
        &&& self.forward.inv(self.generation, self.live as int)
        &&& self.reverse.inv(self.generation, self.live as int)
        &&& forall|a: u64| #[trigger]
            self@.dom().contains(a) ==> back.dom().contains(self@[a]) && back[self@[a]] == a
        &&& forall|b: u64| #[trigger]
            back.dom().contains(b) ==> self@.dom().contains(back[b]) && self@[back[b]] == b
    }

    /// The empty correspondence.
    pub fn new() -> (bijection: Self)
        ensures
            bijection.wf(),
            bijection@ == Map::<u64, u64>::empty(),
            bijection.live == 0,
    {
        let bijection = Bijection {
            forward: BijectionTable::new(),
            reverse: BijectionTable::new(),
            generation: 1,
            live: 0,
        };
        assert(bijection.forward.inv(1, 0));
        assert(bijection.reverse.inv(1, 0));
        assert(bijection.forward.map(1) == Map::<u64, u64>::empty());
        assert(bijection.reverse.map(1) == Map::<u64, u64>::empty());
        bijection
    }

    /// Makes the correspondence empty.
    pub fn clear(&mut self)
        requires
            old(self).wf(),
        ensures
            final(self).wf(),
            final(self)@ == Map::<u64, u64>::empty(),
            final(self).live == 0,
    {
        let ghost before = self.generation;
        let ghost live = self.live as int;
        let next: u32 = self.generation.wrapping_add(1);
        if next == 0 {
            self.forward.invalidate(Ghost(before), Ghost(live));
            self.reverse.invalidate(Ghost(before), Ghost(live));
            self.generation = 1;
        } else {
            proof {
                self.forward.lemma_later_generation(before, live, next);
                self.reverse.lemma_later_generation(before, live, next);
            }
            self.generation = next;
        }
        self.live = 0;
    }

    /// Pairs `a` with `b` unless either already has another partner.
    pub fn insert(&mut self, a: u64, b: u64) -> (accepted: bool)
        requires
            old(self).wf(),
            old(self).live < 0x1_0000_0000,
            8 * (old(self).live + 1) <= usize::MAX,
        ensures
            final(self).wf(),
            accepted == (if old(self)@.dom().contains(a) {
                old(self)@[a] == b
            } else {
                !old(self)@.contains_value(b)
            }),
            final(self)@ == (if accepted { old(self)@.insert(a, b) } else { old(self)@ }),
            final(self).live <= old(self).live + 1,
            !accepted ==> final(self).live == old(self).live,
    {
        let ghost live = self.live as int;
        let ghost m = self@;
        let ghost back = self.reverse.map(self.generation);
        let mapped = self.forward.find(self.generation, a, Ghost(live));
        if let Some(mapped) = mapped {
            proof {
                if mapped == b {
                    assert(m.insert(a, b) =~= m);
                }
            }
            return mapped == b;
        }
        let mapped = self.reverse.find(self.generation, b, Ghost(live));
        if let Some(mapped) = mapped {
            assert(m.dom().contains(mapped) && m[mapped] == b);
            assert(m.contains_value(b));
            return mapped == a;
        }
        proof {
            if m.contains_value(b) {
                let k = choose|k: u64| m.dom().contains(k) && m[k] == b;
                assert(back.dom().contains(b));
            }
        }
        self.forward.insert_new(self.generation, self.live, a, b);
        self.reverse.insert_new(self.generation, self.live, b, a);
        self.live = self.live + 1;
        proof {
            let m1 = self@;
            let back1 = self.reverse.map(self.generation);
            assert(m1 == m.insert(a, b));
            assert(back1 == back.insert(b, a));
            assert forall|x: u64| #[trigger] m1.dom().contains(x) implies back1.dom().contains(m1[x])
                && back1[m1[x]] == x by {
                if x != a {
                    assert(m.dom().contains(x));
                    assert(m[x] != b) by {
                        assert(back.dom().contains(m[x]));
                    }
                }
            }
            assert forall|y: u64| #[trigger] back1.dom().contains(y) implies m1.dom().contains(
                back1[y],
            ) && m1[back1[y]] == y by {
                if y != b {
                    assert(back.dom().contains(y));
                    assert(back[y] != a) by {
                        assert(m.dom().contains(back[y]));
                    }
                }
            }
        }
        true
    }
}

} // verus!
