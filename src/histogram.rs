//! Per-shard latency histograms keyed by an encoded identity, and their merge
//! into one distribution per identity.

use vstd::prelude::*;
use vstd::arithmetic::power2::{pow2, lemma2_to64, lemma_pow2_unfold, lemma_pow2_strictly_increases, lemma_pow2_pos};

verus! {

/// Number of logarithmic buckets: bucket `i` holds the values whose highest
/// set bit is bit `i` (bucket 0 also holds zero).
pub const NUM_BUCKETS: usize = 64;

/// The bucket of a value: the position of its highest set bit.
pub open spec fn bucket_of(v: nat) -> nat
    decreases v,
{
    if v < 2 {
        0
    } else {
        1 + bucket_of(v / 2)
    }
}

/// The largest value that falls into bucket `i`.
pub open spec fn bucket_upper(i: nat) -> nat {
    (pow2(i + 1) - 1) as nat
}

/// Adding with saturation at `u64::MAX`.
pub open spec fn sat_add(a: u64, b: u64) -> u64 {
    if a + b > u64::MAX {
        u64::MAX
    } else {
        (a + b) as u64
    }
}

/// Bucket counts of an identity that has not been observed.
pub open spec fn zero_counts() -> Seq<u64> {
    Seq::new(NUM_BUCKETS as nat, |i: int| 0u64)
}

/// The counts held for `k` in `m`, or all zeros.
pub open spec fn counts_or_zero(m: Map<Seq<u8>, Seq<u64>>, k: Seq<u8>) -> Seq<u64> {
    if m.contains_key(k) {
        m[k]
    } else {
        zero_counts()
    }
}

/// Bucket-wise saturating sum.
pub open spec fn bucket_sum(a: Seq<u64>, b: Seq<u64>) -> Seq<u64> {
    Seq::new(NUM_BUCKETS as nat, |i: int| sat_add(a[i], b[i]))
}

/// `m` after one observation of `key` falling into bucket `b`.
pub open spec fn observed(m: Map<Seq<u8>, Seq<u64>>, key: Seq<u8>, b: nat) -> Map<
    Seq<u8>,
    Seq<u64>,
> {
    let c = counts_or_zero(m, key);
    m.insert(key, c.update(b as int, sat_add(c[b as int], 1)))
}

/// `acc` with every series of `m` added in, bucket by bucket.
pub open spec fn add_map(acc: Map<Seq<u8>, Seq<u64>>, m: Map<Seq<u8>, Seq<u64>>) -> Map<
    Seq<u8>,
    Seq<u64>,
> {
    Map::new(
        |k: Seq<u8>| acc.contains_key(k) || m.contains_key(k),
        |k: Seq<u8>| bucket_sum(counts_or_zero(acc, k), counts_or_zero(m, k)),
    )
}

/// The merge of the shards `ms`: one series per identity present in any shard.
pub open spec fn merge_maps(ms: Seq<Map<Seq<u8>, Seq<u64>>>) -> Map<Seq<u8>, Seq<u64>>
    decreases ms.len(),
{
    if ms.len() == 0 {
        Map::empty()
    } else {
        add_map(merge_maps(ms.drop_last()), ms.last())
    }
}

/// The map whose keys are `ks` and whose value at `ks[i]` is `cs[i]`.
pub open spec fn table_view(ks: Seq<Seq<u8>>, cs: Seq<Seq<u64>>) -> Map<Seq<u8>, Seq<u64>> {
    Map::new(
        |k: Seq<u8>| exists|i: int| 0 <= i < ks.len() && ks[i] == k,
        |k: Seq<u8>| cs[choose|i: int| 0 <= i < ks.len() && ks[i] == k],
    )
}

pub open spec fn keys_distinct(ks: Seq<Seq<u8>>) -> bool {
    forall|i: int, j: int| 0 <= i < j < ks.len() ==> ks[i] != ks[j]
}

proof fn lemma_bucket_below(v: nat, k: nat)
    requires
        0 < k,
        v < pow2(k),
    ensures
        bucket_of(v) < k,
    decreases k,
{
    lemma_pow2_unfold(k);
    if v >= 2 {
        if k == 1 {
            assert(pow2(0) == 1) by {
                lemma2_to64();
            }
        } else {
            lemma_pow2_unfold((k - 1) as nat);
            lemma_bucket_below(v / 2, (k - 1) as nat);
        }
    }
}

/// A value lies between the bounds of its bucket.
pub proof fn lemma_bucket_bounds(v: nat)
    ensures
        v <= bucket_upper(bucket_of(v)),
        bucket_of(v) > 0 ==> v > bucket_upper((bucket_of(v) - 1) as nat),
    decreases v,
{
    lemma2_to64();
    if v >= 2 {
        let h = v / 2;
        let b = bucket_of(h);
        lemma_bucket_bounds(h);
        lemma_pow2_pos(b);
        lemma_pow2_pos(b + 1);
        lemma_pow2_unfold(b + 1);
        lemma_pow2_unfold(b + 2);
        assert(bucket_of(v) == b + 1);
        assert(h < pow2(b + 1));
        assert(v < pow2(b + 2));
        if b > 0 {
            assert(h >= pow2(b));
        }
    }
}

/// The bucket that `v` falls into.
pub fn bucket_index(v: u64) -> (r: usize)
    ensures
        r == bucket_of(v as nat),
        r < NUM_BUCKETS,
{
    proof {
        lemma2_to64();
        lemma_bucket_below(v as nat, 64);
    }
    let mut x: u64 = v;
    let mut b: usize = 0;
    while x >= 2
        invariant
            b + bucket_of(x as nat) == bucket_of(v as nat),
            bucket_of(v as nat) < 64,
        decreases x,
    {
        x = x / 2;
        b = b + 1;
    }
    b
}

/// The largest value counted by bucket `i`: `2^(i+1) - 1`.
pub fn bucket_upper_bound(i: usize) -> (r: u64)
    requires
        i < NUM_BUCKETS,
    ensures
        r == bucket_upper(i as nat),
{
    proof {
        lemma2_to64();
    }
    let mut r: u64 = 1;
    let mut k: usize = 0;
    while k < i
        invariant
            k <= i < 64,
            r == bucket_upper(k as nat),
        decreases i - k,
    {
        proof {
            lemma2_to64();
            lemma_pow2_unfold((k + 2) as nat);
            lemma_pow2_pos((k + 1) as nat);
            if k + 2 < 64 {
                lemma_pow2_strictly_increases((k + 2) as nat, 64);
            }
            assert(pow2((k + 2) as nat) <= 0x1_0000_0000_0000_0000);
            assert(r + 1 == pow2((k + 1) as nat));
        }
        r = 2 * r + 1;
        k = k + 1;
    }
    r
}

/// Whether every series of `m` has one count per bucket.
pub open spec fn sized(m: Map<Seq<u8>, Seq<u64>>) -> bool {
    forall|k: Seq<u8>| #[trigger] m.contains_key(k) ==> m[k].len() == NUM_BUCKETS
}

proof fn lemma_view_at(ks: Seq<Seq<u8>>, cs: Seq<Seq<u64>>, i: int)
    requires
        keys_distinct(ks),
        0 <= i < ks.len(),
    ensures
        table_view(ks, cs).contains_key(ks[i]),
        table_view(ks, cs)[ks[i]] == cs[i],
{
    let j = choose|j: int| 0 <= j < ks.len() && ks[j] == ks[i];
    assert(j == i);
}

proof fn lemma_view_update(ks: Seq<Seq<u8>>, cs: Seq<Seq<u64>>, i: int, c: Seq<u64>)
    requires
        keys_distinct(ks),
        0 <= i < ks.len(),
        cs.len() == ks.len(),
    ensures
        table_view(ks, cs.update(i, c)) == table_view(ks, cs).insert(ks[i], c),
{
    let a = table_view(ks, cs.update(i, c));
    let b = table_view(ks, cs).insert(ks[i], c);
    assert forall|k: Seq<u8>| #[trigger] a.contains_key(k) == b.contains_key(k) by {
        if k == ks[i] {
            lemma_view_at(ks, cs, i);
        }
    }
    assert forall|k: Seq<u8>| a.contains_key(k) implies #[trigger] a[k] == b[k] by {
        let j = choose|j: int| 0 <= j < ks.len() && ks[j] == k;
        lemma_view_at(ks, cs.update(i, c), j);
        lemma_view_at(ks, cs, j);
    }
    assert(a =~= b);
}

proof fn lemma_view_push(ks: Seq<Seq<u8>>, cs: Seq<Seq<u64>>, k: Seq<u8>, c: Seq<u64>)
    requires
        keys_distinct(ks),
        cs.len() == ks.len(),
        !table_view(ks, cs).contains_key(k),
    ensures
        keys_distinct(ks.push(k)),
        table_view(ks.push(k), cs.push(c)) == table_view(ks, cs).insert(k, c),
{
    let ks2 = ks.push(k);
    let cs2 = cs.push(c);
    assert forall|i: int, j: int| 0 <= i < j < ks2.len() implies ks2[i] != ks2[j] by {
        if j == ks.len() {
            assert(ks[i] == ks2[i]);
        }
    }
    let a = table_view(ks2, cs2);
    let b = table_view(ks, cs).insert(k, c);
    assert forall|x: Seq<u8>| #[trigger] a.contains_key(x) == b.contains_key(x) by {
        if a.contains_key(x) && x != k {
            let j = choose|j: int| 0 <= j < ks2.len() && ks2[j] == x;
            assert(ks[j] == x);
        }
        if b.contains_key(x) && x != k {
            let j = choose|j: int| 0 <= j < ks.len() && ks[j] == x;
            assert(ks2[j] == x);
        }
        if x == k {
            assert(ks2[ks.len() as int] == k);
        }
    }
    assert forall|x: Seq<u8>| a.contains_key(x) implies #[trigger] a[x] == b[x] by {
        let j = choose|j: int| 0 <= j < ks2.len() && ks2[j] == x;
        lemma_view_at(ks2, cs2, j);
        if j < ks.len() {
            lemma_view_at(ks, cs, j);
        }
    }
    assert(a =~= b);
}

proof fn lemma_add_map_insert(
    a: Map<Seq<u8>, Seq<u64>>,
    b: Map<Seq<u8>, Seq<u64>>,
    k: Seq<u8>,
    c: Seq<u64>,
)
    requires
        !b.contains_key(k),
    ensures
        add_map(a, b.insert(k, c)) == add_map(a, b).insert(
            k,
            bucket_sum(counts_or_zero(add_map(a, b), k), c),
        ),
{
    let l = add_map(a, b.insert(k, c));
    let r = add_map(a, b).insert(k, bucket_sum(counts_or_zero(add_map(a, b), k), c));
    assert(l.dom() =~= r.dom());
    assert forall|x: Seq<u8>| l.contains_key(x) implies #[trigger] l[x] == r[x] by {
        if x == k {
            assert(l[x] =~= r[x]);
        }
    }
    assert(l =~= r);
}

/// Whether shard `shard` of `v`, whose shards keep up to `max_entries`
/// identities, takes an observation of `key`.
pub open spec fn admits(v: Seq<Map<Seq<u8>, Seq<u64>>>, max_entries: nat, shard: int, key: Seq<u8>) -> bool {
    0 <= shard < v.len() && (v[shard].contains_key(key) || v[shard].dom().len() < max_entries)
}

/// The shards `v` after `value` is observed for `key` in shard `shard`.
pub open spec fn sharded_observed(
    v: Seq<Map<Seq<u8>, Seq<u64>>>,
    max_entries: nat,
    shard: int,
    key: Seq<u8>,
    value: u64,
) -> Seq<Map<Seq<u8>, Seq<u64>>> {
    if admits(v, max_entries, shard, key) {
        v.update(shard, observed(v[shard], key, bucket_of(value as nat)))
    } else {
        v
    }
}

/// A table of bucket counts, one series per distinct key.
pub struct BucketTable {
    keys: Vec<Vec<u8>>,
    counts: Vec<[u64; NUM_BUCKETS]>,
}

impl View for BucketTable {
    type V = Map<Seq<u8>, Seq<u64>>;

    closed spec fn view(&self) -> Map<Seq<u8>, Seq<u64>> {
        table_view(self.key_views(), self.count_views())
    }
}

impl BucketTable {
    closed spec fn key_views(&self) -> Seq<Seq<u8>> {
        Seq::new(self.keys.len() as nat, |i: int| self.keys@[i]@)
    }

    closed spec fn count_views(&self) -> Seq<Seq<u64>> {
        Seq::new(self.counts.len() as nat, |i: int| self.counts@[i]@)
    }

    /// The table's invariant.
    pub closed spec fn wf(&self) -> bool {
        &&& self.keys.len() == self.counts.len()
        &&& keys_distinct(self.key_views())
        &&& self@.dom().finite()
        &&& self@.dom().len() == self.keys.len()
        &&& sized(self@)
    }

    /// A table with no series.
    pub fn new() -> (r: Self)
        ensures
            r.wf(),
            r@ == Map::<Seq<u8>, Seq<u64>>::empty(),
    {
        let r = BucketTable { keys: Vec::new(), counts: Vec::new() };
        assert(r@ =~= Map::<Seq<u8>, Seq<u64>>::empty());
        r
    }

    /// Number of series.
    pub fn len(&self) -> (r: usize)
        requires
            self.wf(),
        ensures
            r == self@.dom().len(),
    {
        self.keys.len()
    }

    /// The key of the `i`-th series.
    pub closed spec fn key_at_spec(&self, i: int) -> Seq<u8> {
        self.keys@[i]@
    }

    /// Every series is found at exactly one position `0..len`.
    pub proof fn lemma_positions(&self)
        requires
            self.wf(),
        ensures
            forall|i: int|
                0 <= i < self@.dom().len() ==> self@.contains_key(#[trigger] self.key_at_spec(i))
                    && self@[self.key_at_spec(i)] == self.counts_at_spec(i),
            forall|k: Seq<u8>|
                #[trigger] self@.contains_key(k) ==> exists|i: int|
                    0 <= i < self@.dom().len() && self.key_at_spec(i) == k,
            forall|i: int, j: int|
                0 <= i < j < self@.dom().len() ==> self.key_at_spec(i) != self.key_at_spec(j),
    {
        assert forall|i: int| 0 <= i < self@.dom().len() implies self@.contains_key(
            #[trigger] self.key_at_spec(i),
        ) && self@[self.key_at_spec(i)] == self.counts_at_spec(i) by {
            lemma_view_at(self.key_views(), self.count_views(), i);
        }
        assert forall|k: Seq<u8>| #[trigger] self@.contains_key(k) implies exists|i: int|
            0 <= i < self@.dom().len() && self.key_at_spec(i) == k by {
            let i = choose|i: int| 0 <= i < self.key_views().len() && self.key_views()[i] == k;
            assert(self.key_at_spec(i) == k);
        }
        assert forall|i: int, j: int| 0 <= i < j < self@.dom().len() implies self.key_at_spec(i)
            != self.key_at_spec(j) by {
            assert(self.key_views()[i] != self.key_views()[j]);
        }
    }

    /// The key of the `i`-th series.
    pub fn key_at(&self, i: usize) -> (r: &Vec<u8>)
        requires
            self.wf(),
            i < self@.dom().len(),
        ensures
            r@ == self.key_at_spec(i as int),
            self@.contains_key(r@),
            self@[r@] == self.counts_at_spec(i as int),
    {
        proof {
            lemma_view_at(self.key_views(), self.count_views(), i as int);
        }
        &self.keys[i]
    }

    /// The counts of the `i`-th series.
    pub closed spec fn counts_at_spec(&self, i: int) -> Seq<u64> {
        self.counts@[i]@
    }

    /// The bucket counts of the `i`-th series.
    pub fn counts_at(&self, i: usize) -> (r: [u64; NUM_BUCKETS])
        requires
            self.wf(),
            i < self@.dom().len(),
        ensures
            r@ == self.counts_at_spec(i as int),
    {
        self.counts[i]
    }

    /// The counts of the series for `key`, all zero when it has none.
    pub fn get(&self, key: &Vec<u8>) -> (r: [u64; NUM_BUCKETS])
        requires
            self.wf(),
        ensures
            r@ == counts_or_zero(self@, key@),
    {
        match self.find(key) {
            Some(i) => {
                proof {
                    lemma_view_at(self.key_views(), self.count_views(), i as int);
                }
                self.counts[i]
            },
            None => {
                let z = [0u64; NUM_BUCKETS];
                assert(z@ =~= zero_counts());
                z
            },
        }
    }

    fn find(&self, key: &Vec<u8>) -> (r: Option<usize>)
        requires
            self.wf(),
        ensures
            match r {
                Some(i) => i < self.keys.len() && self.key_views()[i as int] == key@,
                None => !self@.contains_key(key@),
            },
    {
        let mut i: usize = 0;
        while i < self.keys.len()
            invariant
                i <= self.keys.len(),
                forall|j: int| 0 <= j < i ==> self.key_views()[j] != key@,
            decreases self.keys.len() - i,
        {
            if same_bytes(&self.keys[i], key) {
                return Some(i);
            }
            i = i + 1;
        }
        None
    }

    /// Adds `c` bucket by bucket to the series of `key`, creating it if absent.
    pub fn add_series(&mut self, key: &Vec<u8>, c: &[u64; NUM_BUCKETS])
        requires
            old(self).wf(),
        ensures
            final(self).wf(),
            final(self)@ == old(self)@.insert(
                key@,
                bucket_sum(counts_or_zero(old(self)@, key@), c@),
            ),
    {
        let ghost m = self@;
        let cur = self.get(key);
        let mut sum = [0u64; NUM_BUCKETS];
        let mut b: usize = 0;
        while b < NUM_BUCKETS
            invariant
                b <= NUM_BUCKETS,
                cur@ == counts_or_zero(m, key@),
                forall|j: int| 0 <= j < b ==> sum@[j] == sat_add(cur@[j], c@[j]),
            decreases NUM_BUCKETS - b,
        {
            sum[b] = cur[b].saturating_add(c[b]);
            b = b + 1;
        }
        assert(sum@ =~= bucket_sum(counts_or_zero(m, key@), c@));
        self.put(key, sum);
    }

    /// Sets the series of `key` to `c`.
    fn put(&mut self, key: &Vec<u8>, c: [u64; NUM_BUCKETS])
        requires
            old(self).wf(),
        ensures
            final(self).wf(),
            final(self)@ == old(self)@.insert(key@, c@),
    {
        let ghost ks = self.key_views();
        let ghost cs = self.count_views();
        match self.find(key) {
            Some(i) => {
                proof {
                    lemma_view_update(ks, cs, i as int, c@);
                    lemma_view_at(ks, cs, i as int);
                }
                self.counts.set(i, c);
                assert(self.key_views() =~= ks);
                assert(self.count_views() =~= cs.update(i as int, c@));
                assert(self@.dom() =~= old(self)@.dom());
            },
            None => {
                proof {
                    lemma_view_push(ks, cs, key@, c@);
                }
                let k = copy_bytes(key);
                self.keys.push(k);
                self.counts.push(c);
                assert(self.key_views() =~= ks.push(key@));
                assert(self.count_views() =~= cs.push(c@));
                assert(self@.dom() =~= old(self)@.dom().insert(key@));
            },
        }
    }

    /// Counts one more value in bucket `b` of the series of `key`.
    pub fn observe_bucket(&mut self, key: &Vec<u8>, b: usize)
        requires
            old(self).wf(),
            b < NUM_BUCKETS,
        ensures
            final(self).wf(),
            final(self)@ == observed(old(self)@, key@, b as nat),
    {
        let mut c = self.get(key);
        c[b] = c[b].saturating_add(1);
        self.put(key, c);
    }

    /// Adds every series of `other` into this table.
    pub fn absorb(&mut self, other: &BucketTable)
        requires
            old(self).wf(),
            other.wf(),
        ensures
            final(self).wf(),
            final(self)@ == add_map(old(self)@, other@),
    {
        let ghost start = self@;
        let ghost ks = other.key_views();
        let ghost cs = other.count_views();
        let mut j: usize = 0;
        assert(table_view(ks.take(0), cs.take(0)) =~= Map::<Seq<u8>, Seq<u64>>::empty());
        assert forall|k: Seq<u8>| #[trigger] start.contains_key(k) implies add_map(
            start,
            Map::empty(),
        )[k] == start[k] by {
            assert(add_map(start, Map::empty())[k] =~= start[k]);
        }
        assert(add_map(start, Map::empty()) =~= start);
        while j < other.keys.len()
            invariant
                j <= other.keys.len(),
                other.wf(),
                ks == other.key_views(),
                cs == other.count_views(),
                self.wf(),
                self@ == add_map(start, table_view(ks.take(j as int), cs.take(j as int))),
            decreases other.keys.len() - j,
        {
            let ghost before = table_view(ks.take(j as int), cs.take(j as int));
            proof {
                assert(keys_distinct(ks.take(j as int)));
                assert(!before.contains_key(ks[j as int])) by {
                    if before.contains_key(ks[j as int]) {
                        let i = choose|i: int|
                            0 <= i < j && ks.take(j as int)[i] == ks[j as int];
                        assert(ks[i] == ks[j as int]);
                    }
                }
                lemma_view_push(ks.take(j as int), cs.take(j as int), ks[j as int], cs[j as int]);
                assert(ks.take(j + 1) =~= ks.take(j as int).push(ks[j as int]));
                assert(cs.take(j + 1) =~= cs.take(j as int).push(cs[j as int]));
                lemma_add_map_insert(start, before, ks[j as int], cs[j as int]);
            }
            self.add_series(&other.keys[j], &other.counts[j]);
            j = j + 1;
        }
        assert(ks.take(j as int) =~= ks);
        assert(cs.take(j as int) =~= cs);
    }
}

/// The latency histogram of one shard: at most `max_entries` identities, an
/// observation of a new identity beyond that is dropped.
pub struct HistogramShard {
    table: BucketTable,
    max_entries: usize,
}

impl View for HistogramShard {
    type V = Map<Seq<u8>, Seq<u64>>;

    closed spec fn view(&self) -> Map<Seq<u8>, Seq<u64>> {
        self.table@
    }
}

impl HistogramShard {
    /// The shard's invariant.
    pub closed spec fn wf(&self) -> bool {
        self.table.wf()
    }

    /// How many identities the shard keeps.
    pub closed spec fn max_entries(&self) -> nat {
        self.max_entries as nat
    }

    /// An empty shard that keeps up to `max_entries` identities.
    pub fn new(max_entries: usize) -> (r: Self)
        ensures
            r.wf(),
            r@ == Map::<Seq<u8>, Seq<u64>>::empty(),
            r.max_entries() == max_entries,
    {
        HistogramShard { table: BucketTable::new(), max_entries }
    }

    /// Counts `value` for the identity encoded as `key`. Returns whether the
    /// observation was kept: it is dropped only when `key` is new and the
    /// shard already holds `max_entries` identities.
    pub fn observe(&mut self, key: &Vec<u8>, value: u64) -> (admitted: bool)
        requires
            old(self).wf(),
        ensures
            final(self).wf(),
            final(self).max_entries() == old(self).max_entries(),
            admitted == (old(self)@.contains_key(key@) || old(self)@.dom().len()
                < old(self).max_entries()),
            final(self)@ == if admitted {
                observed(old(self)@, key@, bucket_of(value as nat))
            } else {
                old(self)@
            },
    {
        let known = self.table.find(key).is_some();
        if known || self.table.len() < self.max_entries {
            let b = bucket_index(value);
            self.table.observe_bucket(key, b);
            true
        } else {
            false
        }
    }

    /// The shard's series.
    pub fn table(&self) -> (r: &BucketTable)
        requires
            self.wf(),
        ensures
            r.wf(),
            r@ == self@,
    {
        &self.table
    }
}

/// One histogram shard per execution unit, each written only by its own unit
/// and merged on read.
pub struct ShardedHistogram {
    shards: Vec<HistogramShard>,
    max_entries: usize,
}

impl View for ShardedHistogram {
    type V = Seq<Map<Seq<u8>, Seq<u64>>>;

    closed spec fn view(&self) -> Seq<Map<Seq<u8>, Seq<u64>>> {
        Seq::new(self.shards.len() as nat, |i: int| self.shards@[i]@)
    }
}

impl ShardedHistogram {
    /// The invariant: every shard is well formed and has the same bound.
    pub closed spec fn wf(&self) -> bool {
        forall|i: int|
            0 <= i < self.shards.len() ==> #[trigger] self.shards@[i].wf()
                && self.shards@[i].max_entries() == self.max_entries
    }

    /// How many identities each shard keeps.
    pub closed spec fn max_entries(&self) -> nat {
        self.max_entries as nat
    }

    /// `num_shards` empty shards, each keeping up to `max_entries` identities.
    pub fn new(num_shards: usize, max_entries: usize) -> (r: Self)
        ensures
            r.wf(),
            r.max_entries() == max_entries,
            r@ == Seq::new(num_shards as nat, |i: int| Map::<Seq<u8>, Seq<u64>>::empty()),
    {
        let mut shards: Vec<HistogramShard> = Vec::new();
        let mut i: usize = 0;
        while i < num_shards
            invariant
                i <= num_shards,
                shards.len() == i,
                forall|j: int|
                    0 <= j < i ==> #[trigger] shards@[j].wf() && shards@[j].max_entries()
                        == max_entries && shards@[j]@ == Map::<Seq<u8>, Seq<u64>>::empty(),
            decreases num_shards - i,
        {
            shards.push(HistogramShard::new(max_entries));
            i = i + 1;
        }
        let r = ShardedHistogram { shards, max_entries };
        assert forall|j: int| 0 <= j < num_shards implies #[trigger] r@[j]
            == Map::<Seq<u8>, Seq<u64>>::empty() by {
            assert(shards@[j].wf());
        }
        assert(r@ =~= Seq::new(num_shards as nat, |i: int| Map::<Seq<u8>, Seq<u64>>::empty()));
        r
    }

    /// Number of shards.
    pub fn num_shards(&self) -> (r: usize)
        ensures
            r == self@.len(),
    {
        self.shards.len()
    }

    /// Counts `value` for the identity encoded as `key` in shard `shard`.
    /// Returns whether it was kept; an unknown shard keeps nothing.
    pub fn observe(&mut self, shard: usize, key: &Vec<u8>, value: u64) -> (admitted: bool)
        requires
            old(self).wf(),
        ensures
            final(self).wf(),
            final(self).max_entries() == old(self).max_entries(),
            admitted == admits(old(self)@, old(self).max_entries(), shard as int, key@),
            final(self)@ == sharded_observed(
                old(self)@,
                old(self).max_entries(),
                shard as int,
                key@,
                value,
            ),
    {
        if shard >= self.shards.len() {
            return false;
        }
        let admitted = self.shards[shard].observe(key, value);
        assert(self.shards@[shard as int].wf());
        proof {
            assert forall|i: int| 0 <= i < self.shards.len() implies #[trigger] self.shards@[i].wf()
                && self.shards@[i].max_entries() == self.max_entries by {
                assert(old(self).shards@[i].wf());
                if i != shard {
                    assert(self.shards@[i] == old(self).shards@[i]);
                }
            }
        }
        assert(self@ =~= if admitted {
            old(self)@.update(
                shard as int,
                observed(old(self)@[shard as int], key@, bucket_of(value as nat)),
            )
        } else {
            old(self)@
        });
        admitted
    }

    /// The shard `shard`.
    pub fn shard(&self, shard: usize) -> (r: &HistogramShard)
        requires
            self.wf(),
            shard < self@.len(),
        ensures
            r.wf(),
            r@ == self@[shard as int],
    {
        &self.shards[shard]
    }

    /// All shards merged: one series per identity present in any shard, its
    /// counts the bucket-wise (saturating) sum over the shards.
    pub fn merge(&self) -> (r: BucketTable)
        requires
            self.wf(),
        ensures
            r.wf(),
            r@ == merge_maps(self@),
    {
        let mut acc = BucketTable::new();
        let mut s: usize = 0;
        while s < self.shards.len()
            invariant
                s <= self.shards.len(),
                self.wf(),
                acc.wf(),
                acc@ == merge_maps(self@.take(s as int)),
            decreases self.shards.len() - s,
        {
            assert(self.shards@[s as int].wf());
            acc.absorb(&self.shards[s].table);
            assert(self@.take(s + 1).drop_last() =~= self@.take(s as int));
            s = s + 1;
        }
        assert(self@.take(s as int) =~= self@);
        acc
    }
}

/// The tables of `ts`.
pub open spec fn table_views(ts: Seq<BucketTable>) -> Seq<Map<Seq<u8>, Seq<u64>>> {
    Seq::new(ts.len(), |i: int| ts[i]@)
}

/// Shard tables read from elsewhere, merged: one series per identity present
/// in any table, its counts the bucket-wise (saturating) sum over the tables.
pub fn merge_tables(tables: &Vec<BucketTable>) -> (r: BucketTable)
    requires
        forall|i: int| 0 <= i < tables@.len() ==> #[trigger] tables@[i].wf(),
    ensures
        r.wf(),
        r@ == merge_maps(table_views(tables@)),
{
    let mut acc = BucketTable::new();
    let mut s: usize = 0;
    while s < tables.len()
        invariant
            s <= tables.len(),
            forall|i: int| 0 <= i < tables@.len() ==> #[trigger] tables@[i].wf(),
            acc.wf(),
            acc@ == merge_maps(table_views(tables@).take(s as int)),
        decreases tables.len() - s,
    {
        assert(tables@[s as int].wf());
        acc.absorb(&tables[s]);
        assert(table_views(tables@).take(s + 1).drop_last() =~= table_views(tables@).take(s as int));
        s = s + 1;
    }
    assert(table_views(tables@).take(s as int) =~= table_views(tables@));
    acc
}

/// An identity appears in the merge of some shards exactly when at least one
/// of them holds it.
pub proof fn lemma_merge_keys(ms: Seq<Map<Seq<u8>, Seq<u64>>>, k: Seq<u8>)
    ensures
        merge_maps(ms).contains_key(k) <==> exists|j: int|
            0 <= j < ms.len() && #[trigger] ms[j].contains_key(k),
    decreases ms.len(),
{
    if ms.len() > 0 {
        lemma_merge_keys(ms.drop_last(), k);
        if exists|j: int| 0 <= j < ms.drop_last().len() && #[trigger] ms.drop_last()[j].contains_key(k) {
            let j = choose|j: int| 0 <= j < ms.drop_last().len() && #[trigger] ms.drop_last()[j].contains_key(k);
            assert(ms[j].contains_key(k));
        }
        if exists|j: int| 0 <= j < ms.len() && #[trigger] ms[j].contains_key(k) {
            let j = choose|j: int| 0 <= j < ms.len() && #[trigger] ms[j].contains_key(k);
            if j < ms.len() - 1 {
                assert(ms.drop_last()[j].contains_key(k));
            }
        }
    }
}

/// Merging two shards adds their counts for each identity bucket by bucket:
/// the sum itself wherever it fits in a `u64`.
pub proof fn lemma_merge_two_shards(
    a: Map<Seq<u8>, Seq<u64>>,
    b: Map<Seq<u8>, Seq<u64>>,
    k: Seq<u8>,
    i: int,
)
    requires
        sized(a),
        sized(b),
        0 <= i < NUM_BUCKETS,
    ensures
        merge_maps(seq![a, b]).contains_key(k) <==> (a.contains_key(k) || b.contains_key(k)),
        merge_maps(seq![a, b]).contains_key(k) ==> merge_maps(seq![a, b])[k][i] == sat_add(
            counts_or_zero(a, k)[i],
            counts_or_zero(b, k)[i],
        ),
        counts_or_zero(a, k)[i] + counts_or_zero(b, k)[i] <= u64::MAX ==> merge_maps(
            seq![a, b],
        ).contains_key(k) ==> merge_maps(seq![a, b])[k][i] == counts_or_zero(a, k)[i]
            + counts_or_zero(b, k)[i],
{
    let ms = seq![a, b];
    assert(ms.drop_last() =~= seq![a]);
    assert(seq![a].drop_last() =~= Seq::<Map<Seq<u8>, Seq<u64>>>::empty());
    let m1 = merge_maps(seq![a]);
    assert(merge_maps(Seq::<Map<Seq<u8>, Seq<u64>>>::empty()) == Map::<Seq<u8>, Seq<u64>>::empty());
    assert(seq![a].last() == a);
    assert(ms.last() == b);
    assert(m1 == add_map(Map::empty(), a));
    assert(counts_or_zero(m1, k)[i] == counts_or_zero(a, k)[i]);
}

/// Saturating sum of the first `n` counts of `c`: the number of observations
/// at or below the upper bound of bucket `n - 1`.
pub open spec fn cumulative_count(c: Seq<u64>, n: int) -> u64
    decreases n,
{
    if n <= 0 {
        0
    } else {
        sat_add(cumulative_count(c, n - 1), c[n - 1])
    }
}

/// The cumulative form of bucket counts: entry `i` counts the observations in
/// buckets `0..=i`.
pub fn cumulative(counts: &[u64; NUM_BUCKETS]) -> (r: [u64; NUM_BUCKETS])
    ensures
        forall|i: int| 0 <= i < NUM_BUCKETS ==> r@[i] == cumulative_count(counts@, i + 1),
{
    let mut r = [0u64; NUM_BUCKETS];
    let mut acc: u64 = 0;
    let mut i: usize = 0;
    while i < NUM_BUCKETS
        invariant
            i <= NUM_BUCKETS,
            acc == cumulative_count(counts@, i as int),
            forall|j: int| 0 <= j < i ==> r@[j] == cumulative_count(counts@, j + 1),
        decreases NUM_BUCKETS - i,
    {
        acc = acc.saturating_add(counts[i]);
        r[i] = acc;
        i = i + 1;
    }
    r
}

/// Whether two byte strings are equal.
fn same_bytes(a: &Vec<u8>, b: &Vec<u8>) -> (r: bool)
    ensures
        r == (a@ == b@),
{
    if a.len() != b.len() {
        return false;
    }
    let mut i: usize = 0;
    while i < a.len()
        invariant
            i <= a.len(),
            a.len() == b.len(),
            forall|j: int| 0 <= j < i ==> a@[j] == b@[j],
        decreases a.len() - i,
    {
        if a[i] != b[i] {
            return false;
        }
        i = i + 1;
    }
    assert(a@ =~= b@);
    true
}

/// A copy of `a`.
fn copy_bytes(a: &Vec<u8>) -> (r: Vec<u8>)
    ensures
        r@ == a@,
{
    let mut r: Vec<u8> = Vec::new();
    let mut i: usize = 0;
    while i < a.len()
        invariant
            i <= a.len(),
            r@ == a@.take(i as int),
        decreases a.len() - i,
    {
        r.push(a[i]);
        i = i + 1;
        assert(r@ =~= a@.take(i as int));
    }
    assert(a@.take(i as int) =~= a@);
    r
}

} // verus!
