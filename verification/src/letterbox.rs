use vstd::prelude::*;

use std::collections::hash_map::DefaultHasher;
use std::hash::Hasher;
use vstd::std_specs::hash::DefaultHasherAdditionalSpecFns;

verus! {

/// The number of buckets of a letterbox.
pub const BUCKET_COUNT: usize = 64;

/// The number of samples a region collects before the controller is woken.
pub const NUM_SAMPLES: usize = 20;

/// The thread count recommended for a region that has none yet.
pub const DEFAULT_THREADS: i32 = 16;

/// The measurements received for one region since the controller last
/// consumed them.  A sample is kept as the bit pattern of its `f32` value.
pub struct Incoming {
    pub len: usize,
    pub data: [u32; 20],
}

/// One bucket of a letterbox: free, holding a region, or freed after
/// holding one.  An occupied bucket holds the owning process, the region's
/// key, its controller, its incoming samples and its thread count.
pub enum Bucket<C> {
    Empty,
    Occupied(i32, usize, C, Incoming, i32),
    Tombstone,
}

/// What one `push` did with a sample.
#[derive(Clone, Copy, Debug, PartialEq, Eq, Structural)]
pub enum Push {
    /// The region was new: a bucket now holds it, with the sample.
    Inserted,
    /// The sample joined the region's incoming samples.
    Appended,
    /// The sample completed the region's samples: the controller is to be
    /// woken, and the samples start over.
    Filled,
}

/// A letterbox: a hash table, with open addressing and linear probing, from
/// unique region keys (function pointers) to the incoming measurements and
/// the outgoing thread count of each region.
pub struct Letterbox<C> {
    len: usize,
    pub buckets: Vec<Bucket<C>>,
}

/// What a letterbox holds for one region.
pub struct Region<C> {
    pub pid: i32,
    pub controller: C,
    pub samples: usize,
    pub data: Seq<u32>,
    pub threads: i32,
}

// ---------------------------------------------------------------------------
// Specification
// ---------------------------------------------------------------------------

/// The bucket at which the search for `key` starts: the `DefaultHasher`
/// hash of the key's eight little-endian bytes, modulo the bucket count.
pub open spec fn home(key: usize) -> int {
    (DefaultHasher::spec_finish(seq![vstd::bytes::spec_u64_to_le_bytes(key as u64)]) % 64) as int
}

/// The `j`-th bucket that a search starting at `h` visits.
pub open spec fn probe(h: int, j: int) -> int {
    (h + j) % 64
}

/// How many buckets a search starting at `h` visits before reaching `p`.
pub open spec fn distance(h: int, p: int) -> int {
    (p - h + 64) % 64
}

/// Bucket `p` of `b` holds the region `key`.
pub open spec fn holds<C>(b: Seq<Bucket<C>>, p: int, key: usize) -> bool {
    0 <= p < b.len() && b[p] is Occupied && b[p]->Occupied_1 == key
}

/// Some bucket of `b` holds the region `key`.
pub open spec fn has_key<C>(b: Seq<Bucket<C>>, key: usize) -> bool {
    exists|p: int| holds(b, p, key)
}

/// The bucket of `b` that holds the region `key`.
pub open spec fn slot_of<C>(b: Seq<Bucket<C>>, key: usize) -> int {
    choose|p: int| holds(b, p, key)
}

/// The region an occupied bucket holds.
pub open spec fn region_of<C>(b: Bucket<C>) -> Region<C> {
    Region {
        pid: b->Occupied_0,
        controller: b->Occupied_2,
        samples: b->Occupied_3.len,
        data: b->Occupied_3.data@,
        threads: b->Occupied_4,
    }
}

/// The regions of `b`, by key.
pub open spec fn regions<C>(b: Seq<Bucket<C>>) -> Map<usize, Region<C>> {
    Map::new(|key: usize| has_key(b, key), |key: usize| region_of(b[slot_of(b, key)]))
}

/// The samples of a region that has received its first sample, `value`.
pub open spec fn first_samples(value: u32) -> Seq<u32> {
    Seq::new(20, |i: int| if i == 0 { value } else { 0u32 })
}

/// Pushing a sample to the region `r` completes its samples.
pub open spec fn fills<C>(r: Region<C>) -> bool {
    r.samples + 1 == NUM_SAMPLES
}

/// The region `r` after the sample `value` is pushed to it: the sample is
/// stored after the others, and the samples start over once complete.
pub open spec fn pushed<C>(r: Region<C>, value: u32) -> Region<C> {
    Region {
        pid: r.pid,
        controller: r.controller,
        samples: if fills(r) { 0 } else { (r.samples + 1) as usize },
        data: r.data.update(r.samples as int, value),
        threads: r.threads,
    }
}

/// The region `r` after the samples `values` are pushed to it in order.
pub open spec fn pushed_all<C>(r: Region<C>, values: Seq<u32>) -> Region<C>
    decreases values.len(),
{
    if values.len() == 0 {
        r
    } else {
        pushed(pushed_all(r, values.drop_last()), values.last())
    }
}

/// How many of the pushes of `values` to the region `r` complete its
/// samples, each of which wakes the controller once.
pub open spec fn fill_count<C>(r: Region<C>, values: Seq<u32>) -> nat
    decreases values.len(),
{
    if values.len() == 0 {
        0
    } else {
        fill_count(r, values.drop_last()) + if fills(pushed_all(r, values.drop_last())) {
            1nat
        } else {
            0nat
        }
    }
}

/// A region starts with its first sample at the first place and zeros in
/// the others.
pub proof fn lemma_first_samples(value: u32)
    ensures
        first_samples(value).len() == NUM_SAMPLES,
        first_samples(value)[0] == value,
        forall|k: int| 1 <= k < NUM_SAMPLES ==> #[trigger] first_samples(value)[k] == 0,
{
}

/// One push to a region stores the sample at the region's next place, the
/// place after its last sample, or the first place when a round has just
/// completed, and leaves every other sample, the owner, the controller and
/// the thread count as they were.  The region then holds one more sample,
/// or none once the push completed a round, which is the case exactly when
/// the region held one sample short of a round.
pub proof fn lemma_push_stores_sample<C>(r: Region<C>, value: u32)
    requires
        r.samples < NUM_SAMPLES,
        r.data.len() == NUM_SAMPLES,
    ensures
        pushed(r, value).data.len() == NUM_SAMPLES,
        pushed(r, value).data[r.samples as int] == value,
        forall|k: int| 0 <= k < NUM_SAMPLES && k != r.samples ==> #[trigger] pushed(r, value).data[k] == r.data[k],
        fills(r) <==> r.samples == NUM_SAMPLES - 1,
        fills(r) ==> pushed(r, value).samples == 0,
        !fills(r) ==> pushed(r, value).samples == r.samples + 1,
        pushed(r, value).pid == r.pid,
        pushed(r, value).controller == r.controller,
        pushed(r, value).threads == r.threads,
{
}

/// Pushing samples to a region completes its samples once on every
/// `NUM_SAMPLES`-th sample: after `n` pushes to a region holding `s`
/// samples, it holds `(s + n) % NUM_SAMPLES` samples, and `(s + n) /
/// NUM_SAMPLES` of the pushes have woken the controller.  So a new region,
/// whose first sample comes with its insertion, wakes its controller `k`
/// times in `NUM_SAMPLES * k` samples and then holds none.
pub proof fn lemma_pushes_fill_every_round<C>(r: Region<C>, values: Seq<u32>)
    requires
        r.samples < NUM_SAMPLES,
    ensures
        pushed_all(r, values).samples == (r.samples + values.len()) % (NUM_SAMPLES as int),
        fill_count(r, values) == (r.samples + values.len()) / (NUM_SAMPLES as int),
    decreases values.len(),
{
    if values.len() > 0 {
        let rest = values.drop_last();
        lemma_pushes_fill_every_round(r, rest);
        let m = r.samples + rest.len();
        assert((m + 1) % 20 == (if m % 20 + 1 == 20 { 0 } else { m % 20 + 1 })) by (nonlinear_arith)
            requires
                m >= 0,
        ;
        assert((m + 1) / 20 == m / 20 + (if m % 20 + 1 == 20 { 1int } else { 0int })) by (nonlinear_arith)
            requires
                m >= 0,
        ;
    }
}

/// Bucket `p` is where a new region `key` goes in `b`: the first bucket on
/// the key's search path that is not occupied.
pub open spec fn first_free<C>(b: Seq<Bucket<C>>, key: usize, p: int) -> bool {
    exists|j: int|
        0 <= j < 64 && p == probe(home(key), j) && !(b[p] is Occupied) && forall|jj: int|
            0 <= jj < j ==> #[trigger] b[probe(home(key), jj)] is Occupied
}

/// `b` with every bucket that process `pid` occupies freed.
pub open spec fn freed<C>(b: Seq<Bucket<C>>, pid: i32) -> Seq<Bucket<C>> {
    Seq::new(
        b.len(),
        |q: int|
            if b[q] is Occupied && b[q]->Occupied_0 == pid {
                Bucket::Tombstone
            } else {
                b[q]
            },
    )
}

/// The number of buckets of `b` that process `pid` occupies.
pub open spec fn owned_count<C>(b: Seq<Bucket<C>>, pid: i32) -> nat
    decreases b.len(),
{
    if b.len() == 0 {
        0
    } else {
        owned_count(b.drop_last(), pid) + if b.last() is Occupied && b.last()->Occupied_0 == pid {
            1nat
        } else {
            0nat
        }
    }
}

/// The number of occupied buckets of `b`.
pub open spec fn occupied_count<C>(b: Seq<Bucket<C>>) -> nat
    decreases b.len(),
{
    if b.len() == 0 {
        0
    } else {
        occupied_count(b.drop_last()) + if b.last() is Occupied { 1nat } else { 0nat }
    }
}

/// The table is sound: it has its buckets; its count is the number of
/// occupied buckets; no key is held twice; a search for a held key meets no
/// free bucket before it reaches it; and every region has room for its next
/// sample.
pub open spec fn table_wf<C>(b: Seq<Bucket<C>>, len: int) -> bool {
    &&& b.len() == 64
    &&& len == occupied_count(b)
    &&& forall|p: int, q: int, key: usize| #[trigger] holds(b, p, key) && #[trigger] holds(b, q, key) ==> p == q
    &&& forall|p: int, j: int|
        0 <= p < 64 && b[p] is Occupied && 0 <= j < distance(home(b[p]->Occupied_1), p) ==> !(#[trigger] b[probe(home(b[p]->Occupied_1), j)] is Empty)
    &&& forall|p: int| 0 <= p < 64 && #[trigger] b[p] is Occupied ==> b[p]->Occupied_3.len < 20
}

// ---------------------------------------------------------------------------
// Lemmas
// ---------------------------------------------------------------------------

proof fn lemma_probe_distance(h: int, p: int)
    requires
        0 <= h < 64,
        0 <= p < 64,
    ensures
        0 <= distance(h, p) < 64,
        probe(h, distance(h, p)) == p,
{
}

proof fn lemma_distance_probe(h: int, j: int)
    requires
        0 <= h < 64,
        0 <= j < 64,
    ensures
        0 <= probe(h, j) < 64,
        distance(h, probe(h, j)) == j,
{
}

proof fn lemma_count_bounds<C>(b: Seq<Bucket<C>>)
    ensures
        occupied_count(b) <= b.len(),
        occupied_count(b) == b.len() <==> forall|p: int| 0 <= p < b.len() ==> #[trigger] b[p] is Occupied,
    decreases b.len(),
{
    if b.len() > 0 {
        lemma_count_bounds(b.drop_last());
        if forall|p: int| 0 <= p < b.len() ==> #[trigger] b[p] is Occupied {
            assert forall|p: int| 0 <= p < b.drop_last().len() implies #[trigger] b.drop_last()[p] is Occupied by {
                assert(b[p] is Occupied);
            }
        }
        if occupied_count(b) == b.len() {
            assert forall|p: int| 0 <= p < b.len() implies #[trigger] b[p] is Occupied by {
                if p < b.len() - 1 {
                    assert(b.drop_last()[p] == b[p]);
                }
            }
        }
    }
}

proof fn lemma_count_update<C>(b: Seq<Bucket<C>>, i: int, x: Bucket<C>)
    requires
        0 <= i < b.len(),
    ensures
        occupied_count(b.update(i, x)) + (if b[i] is Occupied { 1int } else { 0int })
            == occupied_count(b) + (if x is Occupied { 1int } else { 0int }),
    decreases b.len(),
{
    if i < b.len() - 1 {
        lemma_count_update(b.drop_last(), i, x);
        assert(b.update(i, x).drop_last() =~= b.drop_last().update(i, x));
    } else {
        assert(b.update(i, x).drop_last() =~= b.drop_last());
    }
}

proof fn lemma_regions_update<C>(b: Seq<Bucket<C>>, len: int, p: int, key: usize, nb: Bucket<C>)
    requires
        table_wf(b, len),
        holds(b, p, key),
        nb is Occupied,
        nb->Occupied_1 == key,
    ensures
        regions(b.update(p, nb)) =~= regions(b).insert(key, region_of(nb)),
{
    let nbs = b.update(p, nb);
    assert forall|k: usize| #[trigger] has_key(nbs, k) == has_key(b, k) by {
        if has_key(b, k) {
            let q = choose|q: int| holds(b, q, k);
            assert(holds(nbs, q, k));
        }
        if has_key(nbs, k) {
            let q = choose|q: int| holds(nbs, q, k);
            assert(holds(b, q, k));
        }
    }
    assert forall|k: usize| has_key(nbs, k) implies #[trigger] region_of(nbs[slot_of(nbs, k)]) == (if k == key {
        region_of(nb)
    } else {
        region_of(b[slot_of(b, k)])
    }) by {
        let q = slot_of(nbs, k);
        assert(holds(nbs, q, k));
        assert(holds(b, q, k));
        if k == key {
            assert(q == p);
        } else {
            assert(slot_of(b, k) == q);
        }
    }
}

proof fn lemma_table_update<C>(b: Seq<Bucket<C>>, len: int, p: int, key: usize, nb: Bucket<C>)
    requires
        table_wf(b, len),
        holds(b, p, key),
        nb is Occupied,
        nb->Occupied_1 == key,
        nb->Occupied_3.len < 20,
    ensures
        table_wf(b.update(p, nb), len),
{
    let nbs = b.update(p, nb);
    lemma_count_update(b, p, nb);
    assert forall|p1: int, q1: int, k: usize| #[trigger] holds(nbs, p1, k) && #[trigger] holds(nbs, q1, k) implies p1 == q1 by {
        assert(holds(b, p1, k) && holds(b, q1, k));
    }
    assert forall|p1: int, jj: int|
        0 <= p1 < 64 && nbs[p1] is Occupied && 0 <= jj < distance(home(nbs[p1]->Occupied_1), p1) implies !(
        #[trigger] nbs[probe(home(nbs[p1]->Occupied_1), jj)] is Empty) by {
        let hh = home(nbs[p1]->Occupied_1);
        assert(b[p1] is Occupied);
        assert(!(b[probe(hh, jj)] is Empty));
    }
}

/// The positions below `n` of the occupied buckets of `b`.
spec fn occupied_positions<C>(b: Seq<Bucket<C>>, n: int) -> Set<int> {
    Set::new(|p: int| 0 <= p < n && b[p] is Occupied)
}

proof fn lemma_positions_count<C>(b: Seq<Bucket<C>>, n: int)
    requires
        0 <= n <= b.len(),
    ensures
        occupied_positions(b, n).finite(),
        occupied_positions(b, n).len() == occupied_count(b.take(n)),
    decreases n,
{
    if n == 0 {
        assert(occupied_positions(b, n) =~= Set::<int>::empty());
        assert(b.take(0) =~= Seq::<Bucket<C>>::empty());
    } else {
        lemma_positions_count(b, n - 1);
        assert(b.take(n).drop_last() =~= b.take(n - 1));
        if b[n - 1] is Occupied {
            assert(occupied_positions(b, n) =~= occupied_positions(b, n - 1).insert(n - 1));
        } else {
            assert(occupied_positions(b, n) =~= occupied_positions(b, n - 1));
        }
    }
}

proof fn lemma_freed_count<C>(b: Seq<Bucket<C>>, pid: i32)
    ensures
        occupied_count(freed(b, pid)) + owned_count(b, pid) == occupied_count(b),
        owned_count(freed(b, pid), pid) == 0,
        freed(freed(b, pid), pid) =~= freed(b, pid),
    decreases b.len(),
{
    if b.len() > 0 {
        lemma_freed_count(b.drop_last(), pid);
        assert(freed(b, pid).drop_last() =~= freed(b.drop_last(), pid));
        assert(freed(b, pid).last() == freed(b, pid)[b.len() - 1]);
    }
}

/// Freeing the buckets of a process a second time changes nothing: no
/// bucket of that process is left, and the table stays as it is.
pub proof fn lemma_free_pid_twice<C>(b: Seq<Bucket<C>>, pid: i32)
    ensures
        owned_count(freed(b, pid), pid) == 0,
        freed(freed(b, pid), pid) == freed(b, pid),
{
    lemma_freed_count(b, pid);
}

proof fn lemma_count_le<C>(b: Seq<Bucket<C>>, c: Seq<Bucket<C>>)
    requires
        b.len() == c.len(),
        forall|q: int| 0 <= q < c.len() && #[trigger] c[q] is Occupied ==> b[q] is Occupied,
    ensures
        occupied_count(c) <= occupied_count(b),
    decreases b.len(),
{
    if b.len() > 0 {
        assert forall|q: int| 0 <= q < c.drop_last().len() && #[trigger] c.drop_last()[q] is Occupied implies b.drop_last()[q] is Occupied by {
            assert(c[q] is Occupied);
        }
        lemma_count_le(b.drop_last(), c.drop_last());
        if c.last() is Occupied {
            assert(c[c.len() - 1] is Occupied);
        }
    }
}

// ---------------------------------------------------------------------------
// The letterbox
// ---------------------------------------------------------------------------

impl<C> Letterbox<C> {
    /// The letterbox is a sound table (see `table_wf`).
    pub closed spec fn wf(&self) -> bool {
        table_wf(self.buckets@, self.len as int)
    }

    /// The regions the letterbox holds, by key.
    pub closed spec fn regions(&self) -> Map<usize, Region<C>> {
        regions(self.buckets@)
    }

    /// The bucket table.
    pub closed spec fn table(&self) -> Seq<Bucket<C>> {
        self.buckets@
    }

    /// The number of regions the letterbox holds.
    pub closed spec fn count(&self) -> int {
        self.len as int
    }

    /// An empty letterbox.
    pub fn new() -> (lb: Letterbox<C>)
        ensures
            lb.wf(),
            lb.regions() == Map::<usize, Region<C>>::empty(),
            lb.count() == 0,
    {
        let mut buckets: Vec<Bucket<C>> = Vec::new();
        let mut i: usize = 0;
        while i < BUCKET_COUNT
            invariant
                i <= 64,
                buckets@.len() == i,
                forall|p: int| 0 <= p < i ==> #[trigger] buckets@[p] is Empty,
                occupied_count(buckets@) == 0,
            decreases 64 - i,
        {
            let ghost before = buckets@;
            buckets.push(Bucket::Empty);
            assert(buckets@.drop_last() =~= before);
            i += 1;
        }
        let lb = Letterbox { len: 0, buckets };
        assert(lb.regions() =~= Map::<usize, Region<C>>::empty());
        lb
    }

    /// The number of regions the letterbox holds.
    pub fn len(&self) -> (r: usize)
        ensures
            r == self.count(),
    {
        self.len
    }

    /// The bucket at which the search for `key` starts.
    fn get_hash(&self, key: usize) -> (r: usize)
        ensures
            r == home(key),
    {
        let mut hasher = DefaultHasher::new();
        let bytes = vstd::bytes::u64_to_le_bytes(key as u64);
        hasher.write(bytes.as_slice());
        let h = hasher.finish();
        (h % 64) as usize
    }

    /// The bucket that holds the region `key`, if any.
    fn find(&self, key: usize) -> (r: Option<usize>)
        requires
            self.wf(),
        ensures
            match r {
                Some(p) => holds(self.buckets@, p as int, key),
                None => !has_key(self.buckets@, key),
            },
    {
        let h = self.get_hash(key);
        let mut j: usize = 0;
        while j < BUCKET_COUNT
            invariant
                self.wf(),
                h == home(key),
                j <= 64,
                forall|jj: int| 0 <= jj < j ==> !(#[trigger] self.buckets@[probe(h as int, jj)] is Empty) && !holds(
                    self.buckets@,
                    probe(h as int, jj),
                    key,
                ),
            decreases 64 - j,
        {
            let p = (h + j) % BUCKET_COUNT;
            proof {
                lemma_distance_probe(h as int, j as int);
            }
            match &self.buckets[p] {
                Bucket::Empty => {
                    proof {
                        if has_key(self.buckets@, key) {
                            let q = choose|q: int| holds(self.buckets@, q, key);
                            lemma_probe_distance(h as int, q);
                            let d = distance(h as int, q);
                            if d < j {
                                assert(!holds(self.buckets@, probe(h as int, d), key));
                            } else if d > j {
                                assert(!(self.buckets@[probe(h as int, j as int)] is Empty));
                            }
                        }
                    }
                    return None;
                },
                Bucket::Occupied(_, k, _, _, _) => {
                    if *k == key {
                        return Some(p);
                    }
                },
                Bucket::Tombstone => {},
            }
            j += 1;
        }
        proof {
            if has_key(self.buckets@, key) {
                let q = choose|q: int| holds(self.buckets@, q, key);
                lemma_probe_distance(h as int, q);
                assert(!holds(self.buckets@, probe(h as int, distance(h as int, q)), key));
            }
        }
        None
    }

    /// The thread count recommended for the region `key`, if the letterbox
    /// holds it.
    pub fn get_threads(&self, key: usize) -> (r: Option<&i32>)
        requires
            self.wf(),
        ensures
            r.is_some() == self.regions().contains_key(key),
            r matches Some(t) ==> *t == self.regions()[key].threads,
    {
        match self.find(key) {
            Some(p) => {
                proof {
                    assert(self.regions().contains_key(key));
                    assert(slot_of(self.buckets@, key) == p);
                }
                match &self.buckets[p] {
                    Bucket::Occupied(_, _, _, _, threads) => Some(threads),
                    _ => None,
                }
            },
            None => None,
        }
    }

    /// The thread count for the region `key`: the one recommended for it,
    /// as a `u32`, or the default of 16 threads when the letterbox does not
    /// hold the region.
    pub fn thread_count(&self, key: usize) -> (r: u32)
        requires
            self.wf(),
        ensures
            r == (if self.regions().contains_key(key) {
                self.regions()[key].threads as u32
            } else {
                DEFAULT_THREADS as u32
            }),
    {
        match self.get_threads(key) {
            Some(t) => *t as u32,
            None => DEFAULT_THREADS as u32,
        }
    }

    /// Puts the region `key`, owned by process `pid`, into the first bucket
    /// that is not occupied on the search path of the key, with its
    /// controller, the sample `value` as its only sample, and the default
    /// thread count; every other bucket stays as it is.
    ///
    /// The count grows by one: it is always the number of regions held,
    /// which is what `free_pid` subtracts from when it frees them.
    pub fn insert(&mut self, pid: i32, key: usize, value: u32, controller: C)
        requires
            old(self).wf(),
            old(self).count() < BUCKET_COUNT,
            !old(self).regions().contains_key(key),
        ensures
            final(self).wf(),
            final(self).count() == old(self).count() + 1,
            final(self).regions() == old(self).regions().insert(
                key,
                Region { pid, controller, samples: 1, data: first_samples(value), threads: DEFAULT_THREADS },
            ),
            exists|p: int|
                first_free(old(self).table(), key, p) && final(self).table() == old(self).table().update(
                    p,
                    final(self).table()[p],
                ) && holds(final(self).table(), p, key),
    {
        let h = self.get_hash(key);
        let ghost b = self.buckets@;
        let mut j: usize = 0;
        while j < BUCKET_COUNT
            invariant
                self.buckets@ == b,
                self.len == old(self).len,
                b == old(self).buckets@,
                table_wf(b, self.len as int),
                self.len < 64,
                !has_key(b, key),
                h == home(key),
                j <= 64,
                forall|jj: int| 0 <= jj < j ==> #[trigger] b[probe(h as int, jj)] is Occupied,
            decreases 64 - j,
        {
            let p = (h + j) % BUCKET_COUNT;
            proof {
                lemma_distance_probe(h as int, j as int);
            }
            let free = match &self.buckets[p] {
                Bucket::Occupied(..) => false,
                _ => true,
            };
            if free {
                let mut data: [u32; 20] = [0u32; 20];
                data[0] = value;
                let bucket = Bucket::Occupied(pid, key, controller, Incoming { len: 1, data }, DEFAULT_THREADS);
                let ghost nb = bucket;
                self.buckets.set(p, bucket);
                self.len = self.len + 1;
                proof {
                    self.lemma_insert_at(b, p as int, j as int, key, nb);
                    assert(data@ =~= first_samples(value));
                    assert(first_free(b, key, p as int));
                    assert(self.buckets@ =~= b.update(p as int, self.buckets@[p as int]));
                    assert(holds(self.buckets@, p as int, key));
                    assert(first_free(old(self).table(), key, p as int) && self.table() == old(self).table().update(
                        p as int,
                        self.table()[p as int],
                    ) && holds(self.table(), p as int, key));
                }
                return;
            }
            j += 1;
        }
        proof {
            assert forall|q: int| 0 <= q < 64 implies #[trigger] b[q] is Occupied by {
                lemma_probe_distance(h as int, q);
            }
            lemma_count_bounds(b);
            assert(false);
        }
    }

    proof fn lemma_insert_at(&self, b: Seq<Bucket<C>>, p: int, j: int, key: usize, nb: Bucket<C>)
        requires
            table_wf(b, self.len - 1),
            !has_key(b, key),
            0 <= j < 64,
            p == probe(home(key), j),
            distance(home(key), p) == j,
            0 <= p < 64,
            !(b[p] is Occupied),
            forall|jj: int| 0 <= jj < j ==> #[trigger] b[probe(home(key), jj)] is Occupied,
            self.buckets@ == b.update(p, nb),
            nb is Occupied,
            nb->Occupied_1 == key,
            nb->Occupied_3.len < 20,
        ensures
            self.wf(),
            self.regions() =~= regions(b).insert(key, region_of(nb)),
    {
        let nbs = self.buckets@;
        lemma_count_update(b, p, nb);
        assert forall|p1: int, q1: int, k: usize| #[trigger] holds(nbs, p1, k) && #[trigger] holds(nbs, q1, k) implies p1 == q1 by {
            if p1 != p && q1 != p {
                assert(holds(b, p1, k) && holds(b, q1, k));
            } else if p1 != p {
                assert(holds(b, p1, key));
            } else if q1 != p {
                assert(holds(b, q1, key));
            }
        }
        assert forall|p1: int, jj: int|
            0 <= p1 < 64 && nbs[p1] is Occupied && 0 <= jj < distance(home(nbs[p1]->Occupied_1), p1) implies !(
            #[trigger] nbs[probe(home(nbs[p1]->Occupied_1), jj)] is Empty) by {
            let hh = home(nbs[p1]->Occupied_1);
            if p1 == p {
                assert(b[probe(home(key), jj)] is Occupied);
                lemma_distance_probe(home(key), jj);
            } else {
                assert(b[p1] is Occupied);
                assert(!(b[probe(hh, jj)] is Empty));
            }
        }
        assert forall|k: usize| #[trigger] has_key(nbs, k) == (has_key(b, k) || k == key) by {
            if has_key(b, k) {
                let q = choose|q: int| holds(b, q, k);
                assert(holds(nbs, q, k));
            }
            if k == key {
                assert(holds(nbs, p, k));
            }
            if has_key(nbs, k) && k != key {
                let q = choose|q: int| holds(nbs, q, k);
                assert(holds(b, q, k));
            }
        }
        assert forall|k: usize| has_key(nbs, k) implies #[trigger] region_of(nbs[slot_of(nbs, k)]) == (if k == key {
            region_of(nb)
        } else {
            region_of(b[slot_of(b, k)])
        }) by {
            if k == key {
                assert(holds(nbs, p, k));
            } else {
                let q = slot_of(b, k);
                assert(holds(b, q, k));
                assert(holds(nbs, q, k));
            }
        }
    }

    /// Stores the sample `value` for the region `key`.  When the letterbox
    /// holds the region, the sample is appended to its samples; the sample
    /// that completes them (the twentieth) makes the samples start over and
    /// is answered with `Push::Filled`, on which the caller wakes the
    /// controller.  Otherwise the region is inserted for process `pid`, with
    /// `controller` and the sample.
    pub fn push(&mut self, pid: i32, key: usize, value: u32, controller: C) -> (outcome: Push)
        requires
            old(self).wf(),
            old(self).regions().contains_key(key) || old(self).count() < BUCKET_COUNT,
        ensures
            final(self).wf(),
            old(self).regions().contains_key(key) ==> {
                let r = old(self).regions()[key];
                &&& outcome == (if fills(r) { Push::Filled } else { Push::Appended })
                &&& final(self).count() == old(self).count()
                &&& final(self).regions() == old(self).regions().insert(key, pushed(r, value))
                &&& final(self).table() == old(self).table().update(
                    slot_of(old(self).table(), key),
                    final(self).table()[slot_of(old(self).table(), key)],
                )
                &&& holds(final(self).table(), slot_of(old(self).table(), key), key)
            },
            !old(self).regions().contains_key(key) ==> {
                &&& exists|p: int|
                    first_free(old(self).table(), key, p) && final(self).table() == old(self).table().update(
                        p,
                        final(self).table()[p],
                    ) && holds(final(self).table(), p, key)
                &&& outcome == Push::Inserted
                &&& final(self).count() == old(self).count() + 1
                &&& final(self).regions() == old(self).regions().insert(
                    key,
                    Region { pid, controller, samples: 1, data: first_samples(value), threads: DEFAULT_THREADS },
                )
            },
    {
        match self.get_incoming_mut(key) {
            Some(incoming) => {
                incoming.data[incoming.len] = value;
                incoming.len = incoming.len + 1;
                if incoming.len == NUM_SAMPLES {
                    incoming.len = 0;
                    Push::Filled
                } else {
                    Push::Appended
                }
            },
            None => {
                self.insert(pid, key, value, controller);
                Push::Inserted
            },
        }
    }

    /// Frees every bucket that process `pid` owns: the regions of `pid`
    /// leave the letterbox, all others stay as they are.
    pub fn free_pid(&mut self, pid: i32)
        requires
            old(self).wf(),
        ensures
            final(self).wf(),
            final(self).table() == freed(old(self).table(), pid),
            final(self).count() == old(self).count() - owned_count(old(self).table(), pid),
            final(self).regions() == Map::new(
                |key: usize| old(self).regions().contains_key(key) && old(self).regions()[key].pid != pid,
                |key: usize| old(self).regions()[key],
            ),
    {
        let ghost b = self.buckets@;
        let mut i: usize = 0;
        while i < BUCKET_COUNT
            invariant
                table_wf(b, old(self).len as int),
                b == old(self).buckets@,
                self.buckets@.len() == 64,
                self.len == occupied_count(self.buckets@),
                i <= 64,
                forall|q: int|
                    0 <= q < 64 ==> #[trigger] self.buckets@[q] == (if q < i && b[q] is Occupied && b[q]->Occupied_0
                        == pid {
                        Bucket::Tombstone
                    } else {
                        b[q]
                    }),
            decreases 64 - i,
        {
            let owned = match &self.buckets[i] {
                Bucket::Occupied(pid2, ..) => *pid2 == pid,
                _ => false,
            };
            if owned {
                proof {
                    lemma_count_update(self.buckets@, i as int, Bucket::Tombstone);
                }
                self.buckets.set(i, Bucket::Tombstone);
                self.len = self.len - 1;
            }
            i += 1;
        }
        proof {
            self.lemma_freed(b, old(self).len as int, pid);
            assert(self.buckets@ =~= freed(b, pid));
            lemma_freed_count(b, pid);
        }
    }

    proof fn lemma_freed(&self, b: Seq<Bucket<C>>, old_len: int, pid: i32)
        requires
            table_wf(b, old_len),
            self.buckets@.len() == 64,
            self.len == occupied_count(self.buckets@),
            forall|q: int|
                0 <= q < 64 ==> #[trigger] self.buckets@[q] == (if b[q] is Occupied && b[q]->Occupied_0 == pid {
                    Bucket::Tombstone
                } else {
                    b[q]
                }),
        ensures
            self.wf(),
            self.regions() =~= Map::new(
                |key: usize| regions(b).contains_key(key) && regions(b)[key].pid != pid,
                |key: usize| regions(b)[key],
            ),
    {
        let nbs = self.buckets@;
        assert forall|p1: int, k: usize| #[trigger] holds(nbs, p1, k) implies holds(b, p1, k) && b[p1] == nbs[p1] && b[p1]->Occupied_0 != pid by {
            assert(nbs[p1] == (if b[p1] is Occupied && b[p1]->Occupied_0 == pid {
                Bucket::Tombstone
            } else {
                b[p1]
            }));
        }
        assert forall|p1: int, jj: int|
            0 <= p1 < 64 && nbs[p1] is Occupied && 0 <= jj < distance(home(nbs[p1]->Occupied_1), p1) implies !(
            #[trigger] nbs[probe(home(nbs[p1]->Occupied_1), jj)] is Empty) by {
            let k = nbs[p1]->Occupied_1;
            assert(holds(nbs, p1, k));
            let hh = home(k);
            assert(!(b[probe(hh, jj)] is Empty));
            lemma_distance_probe(hh, jj);
            assert(nbs[probe(hh, jj)] == (if b[probe(hh, jj)] is Occupied && b[probe(hh, jj)]->Occupied_0 == pid {
                Bucket::Tombstone
            } else {
                b[probe(hh, jj)]
            }));
        }
        assert forall|p: int| 0 <= p < 64 && #[trigger] nbs[p] is Occupied implies nbs[p]->Occupied_3.len < 20 by {
            assert(holds(nbs, p, nbs[p]->Occupied_1));
        }
        assert forall|key: usize| #[trigger] has_key(nbs, key) == (has_key(b, key) && region_of(b[slot_of(b, key)]).pid
            != pid) by {
            if has_key(nbs, key) {
                let q = choose|q: int| holds(nbs, q, key);
                assert(holds(b, q, key));
                assert(slot_of(b, key) == q);
            }
            if has_key(b, key) && region_of(b[slot_of(b, key)]).pid != pid {
                let q = slot_of(b, key);
                assert(holds(b, q, key));
                assert(holds(nbs, q, key));
            }
        }
        assert forall|key: usize| has_key(nbs, key) implies #[trigger] region_of(nbs[slot_of(nbs, key)]) == region_of(
            b[slot_of(b, key)],
        ) by {
            let q = slot_of(nbs, key);
            assert(holds(nbs, q, key));
            assert(holds(b, q, key));
            assert(slot_of(b, key) == q);
        }
    }

    /// The letterbox made of a bucket table and its count, as another
    /// process left them in shared memory, if they form a sound table.
    pub fn from_parts(len: usize, buckets: Vec<Bucket<C>>) -> (r: Option<Letterbox<C>>)
        ensures
            r.is_some() == table_wf(buckets@, len as int),
            r matches Some(lb) ==> lb.wf() && lb.table() == buckets@ && lb.count() == len,
    {
        if buckets.len() != BUCKET_COUNT {
            return None;
        }
        let lb = Letterbox { len, buckets };
        if lb.is_sound() {
            Some(lb)
        } else {
            None
        }
    }

    /// The count and the bucket table of the letterbox, to be stored in
    /// shared memory.
    pub fn into_parts(self) -> (r: (usize, Vec<Bucket<C>>))
        ensures
            r.0 == self.count(),
            r.1@ == self.table(),
    {
        (self.len, self.buckets)
    }

    /// Whether the table is sound (`wf`), checked bucket by bucket.
    fn is_sound(&self) -> (r: bool)
        requires
            self.buckets@.len() == 64,
        ensures
            r == self.wf(),
    {
        let b = &self.buckets;
        // The count.
        let mut count: usize = 0;
        let mut i: usize = 0;
        while i < BUCKET_COUNT
            invariant
                b@.len() == 64,
                b@ == self.buckets@,
                i <= 64,
                count == occupied_count(b@.take(i as int)),
                count <= i,
            decreases 64 - i,
        {
            proof {
                assert(b@.take(i + 1).drop_last() =~= b@.take(i as int));
            }
            if let Bucket::Occupied(..) = &b[i] {
                count += 1;
            }
            i += 1;
        }
        assert(b@.take(64) =~= b@);
        if count != self.len {
            return false;
        }
        // The regions: room for a sample, one bucket per key, no free bucket
        // on the search path.
        let mut p: usize = 0;
        while p < BUCKET_COUNT
            invariant
                b@.len() == 64,
                b@ == self.buckets@,
                p <= 64,
                forall|q: int| 0 <= q < p && #[trigger] b@[q] is Occupied ==> b@[q]->Occupied_3.len < 20,
                forall|q1: int, q2: int, key: usize|
                    q1 < p && #[trigger] holds(b@, q1, key) && #[trigger] holds(b@, q2, key) ==> q1 == q2,
                forall|q: int, j: int|
                    0 <= q < p && b@[q] is Occupied && 0 <= j < distance(home(b@[q]->Occupied_1), q) ==> !(
                    #[trigger] b@[probe(home(b@[q]->Occupied_1), j)] is Empty),
            decreases 64 - p,
        {
            if let Bucket::Occupied(_, key, _, incoming, _) = &b[p] {
                let key = *key;
                if incoming.len >= NUM_SAMPLES {
                    assert(b@[p as int] is Occupied);
                    return false;
                }
                // No other bucket holds the key.
                let mut q: usize = 0;
                while q < BUCKET_COUNT
                    invariant
                        b@.len() == 64,
                        b@ == self.buckets@,
                        p < 64,
                        q <= 64,
                        holds(b@, p as int, key),
                        forall|q2: int| 0 <= q2 < q && q2 != p ==> !#[trigger] holds(b@, q2, key),
                    decreases 64 - q,
                {
                    if q != p {
                        if let Bucket::Occupied(_, k2, _, _, _) = &b[q] {
                            if *k2 == key {
                                assert(holds(b@, q as int, key) && holds(b@, p as int, key));
                                return false;
                            }
                        }
                    }
                    q += 1;
                }
                // No free bucket before it on its search path.
                let h = self.get_hash(key);
                let d = (p + BUCKET_COUNT - h) % BUCKET_COUNT;
                let mut j: usize = 0;
                while j < d
                    invariant
                        b@.len() == 64,
                        b@ == self.buckets@,
                        h == home(key),
                        d == distance(h as int, p as int),
                        d < 64,
                        j <= d,
                        p < 64,
                        holds(b@, p as int, key),
                        forall|jj: int| 0 <= jj < j ==> !(#[trigger] b@[probe(h as int, jj)] is Empty),
                    decreases d - j,
                {
                    let x = (h + j) % BUCKET_COUNT;
                    if let Bucket::Empty = &b[x] {
                        assert(b@[probe(home(b@[p as int]->Occupied_1), j as int)] is Empty);
                        return false;
                    }
                    j += 1;
                }
            }
            p += 1;
        }
        true
    }

    /// The incoming samples of the region `key`, for the caller to change,
    /// if the letterbox holds the region.  Nothing else of the letterbox
    /// changes.
    pub fn get_incoming_mut(&mut self, key: usize) -> (r: Option<&mut Incoming>)
        requires
            old(self).wf(),
        ensures
            r.is_some() == old(self).regions().contains_key(key),
            final(self).count() == old(self).count(),
            r is None ==> final(self).table() == old(self).table() && final(self).regions() == old(
                self,
            ).regions() && final(self).wf(),
            r matches Some(inc) ==> {
                &&& final(inc).len < NUM_SAMPLES ==> final(self).wf()
                &&& final(self).table() == old(self).table().update(
                    slot_of(old(self).table(), key),
                    Bucket::Occupied(
                        old(self).table()[slot_of(old(self).table(), key)]->Occupied_0,
                        key,
                        old(self).table()[slot_of(old(self).table(), key)]->Occupied_2,
                        *final(inc),
                        old(self).table()[slot_of(old(self).table(), key)]->Occupied_4,
                    ),
                )
                &&& inc.len == old(self).regions()[key].samples
                &&& inc.data@ == old(self).regions()[key].data
                &&& final(self).regions() == old(self).regions().insert(
                    key,
                    Region {
                        pid: old(self).regions()[key].pid,
                        controller: old(self).regions()[key].controller,
                        samples: final(inc).len,
                        data: final(inc).data@,
                        threads: old(self).regions()[key].threads,
                    },
                )
            },
    {
        match self.find(key) {
            Some(p) => {
                let ghost b = self.buckets@;
                match &mut self.buckets[p] {
                    Bucket::Occupied(_, _, _, incoming, _) => {
                        proof {
                            let ob = b[p as int];
                            if final(incoming).len < 20 {
                                lemma_table_update(
                                    b,
                                    self.len as int,
                                    p as int,
                                    key,
                                    Bucket::Occupied(ob->Occupied_0, ob->Occupied_1, ob->Occupied_2, *final(incoming), ob->Occupied_4),
                                );
                            }
                            assert(holds(b, slot_of(b, key), key));
                            lemma_regions_update(
                                b,
                                self.len as int,
                                p as int,
                                key,
                                Bucket::Occupied(ob->Occupied_0, ob->Occupied_1, ob->Occupied_2, *final(incoming), ob->Occupied_4),
                            );
                        }
                        Some(incoming)
                    },
                    _ => None,
                }
            },
            None => None,
        }
    }

    /// The count of a letterbox is the number of regions it holds.
    pub proof fn lemma_count_is_region_count(&self)
        requires
            self.wf(),
        ensures
            self.regions().dom().finite(),
            self.count() == self.regions().dom().len(),
            self.count() <= BUCKET_COUNT,
    {
        let b = self.buckets@;
        let positions = occupied_positions(b, 64);
        lemma_positions_count(b, 64);
        assert(b.take(64) =~= b);
        lemma_count_bounds(b);
        let f = |p: int| b[p]->Occupied_1;
        assert forall|x: int, y: int| positions.contains(x) && positions.contains(y) && #[trigger] f(x) == #[trigger] f(y) implies x == y by {
            assert(holds(b, x, f(x)) && holds(b, y, f(x)));
        }
        assert(positions.map(f) =~= self.regions().dom()) by {
            assert forall|k: usize| #[trigger] positions.map(f).contains(k) implies self.regions().dom().contains(k) by {
                let p = choose|p: int| positions.contains(p) && f(p) == k;
                assert(holds(b, p, k));
            }
            assert forall|k: usize| self.regions().dom().contains(k) implies #[trigger] positions.map(f).contains(k) by {
                let p = choose|p: int| holds(b, p, k);
                assert(positions.contains(p) && f(p) == k);
            }
        }
        vstd::set_lib::lemma_map_size(positions, self.regions().dom(), f);
    }

    /// Every region of a sound letterbox has room for its next sample: it
    /// holds fewer than `NUM_SAMPLES` samples, so the sample `push` stores
    /// always fits, and the samples start over when they are complete.
    pub proof fn lemma_samples_below_round(&self, key: usize)
        requires
            self.wf(),
            self.regions().contains_key(key),
        ensures
            self.regions()[key].samples < NUM_SAMPLES,
    {
        let p = slot_of(self.buckets@, key);
        assert(holds(self.buckets@, p, key));
    }
}

} // verus!
