//! Per-shard page-cache event counters, summed on read.

use vstd::prelude::*;

verus! {

/// Number of page-cache counters.
pub const NUM_COUNTERS: usize = 3;

/// The page-cache events that are counted.
#[derive(Clone, Copy, Debug, PartialEq, Eq, Structural)]
pub enum PageCacheCounter {
    PageAccessed,
    AddedToCache,
    MarkedDirty,
}

impl PageCacheCounter {
    pub open spec fn spec_index(self) -> nat {
        match self {
            PageCacheCounter::PageAccessed => 0,
            PageCacheCounter::AddedToCache => 1,
            PageCacheCounter::MarkedDirty => 2,
        }
    }

    /// The counter's slot in a shard.
    pub fn index(self) -> (r: usize)
        ensures
            r == self.spec_index(),
            r < NUM_COUNTERS,
    {
        match self {
            PageCacheCounter::PageAccessed => 0,
            PageCacheCounter::AddedToCache => 1,
            PageCacheCounter::MarkedDirty => 2,
        }
    }
}

/// The shards `v` after one event of counter `c` in shard `shard`; the cell
/// saturates at `u64::MAX`, and an unknown shard changes nothing.
pub open spec fn incremented(v: Seq<Seq<u64>>, shard: int, c: int) -> Seq<Seq<u64>> {
    if 0 <= shard < v.len() {
        let cell = v[shard][c];
        v.update(shard, v[shard].update(c, if cell == u64::MAX { cell } else { (cell + 1) as u64 }))
    } else {
        v
    }
}

/// The sum of counter `c` over all shards of `v`.
pub open spec fn counter_sum(v: Seq<Seq<u64>>, c: int) -> int
    decreases v.len(),
{
    if v.len() == 0 {
        0
    } else {
        counter_sum(v.drop_last(), c) + v.last()[c]
    }
}

/// The sum capped at `u64::MAX`.
pub open spec fn capped(x: int) -> u64 {
    if x > u64::MAX {
        u64::MAX
    } else {
        x as u64
    }
}

/// `n` shards with every counter at zero.
pub open spec fn zero_bank(n: nat) -> Seq<Seq<u64>> {
    Seq::new(n, |i: int| Seq::new(NUM_COUNTERS as nat, |j: int| 0u64))
}

/// Counters of page-cache events, one array per shard.
pub struct CounterBank {
    shards: Vec<[u64; NUM_COUNTERS]>,
}

impl View for CounterBank {
    type V = Seq<Seq<u64>>;

    closed spec fn view(&self) -> Seq<Seq<u64>> {
        Seq::new(self.shards.len() as nat, |i: int| self.shards@[i]@)
    }
}

impl CounterBank {
    /// `num_shards` shards with every counter at zero.
    pub fn new(num_shards: usize) -> (r: Self)
        ensures
            r@ == zero_bank(num_shards as nat),
    {
        let mut shards: Vec<[u64; NUM_COUNTERS]> = Vec::new();
        let mut i: usize = 0;
        while i < num_shards
            invariant
                i <= num_shards,
                shards.len() == i,
                forall|j: int| 0 <= j < i ==> #[trigger] shards@[j]@ == Seq::new(NUM_COUNTERS as nat, |k: int| 0u64),
            decreases num_shards - i,
        {
            let z = [0u64; NUM_COUNTERS];
            assert(z@ =~= Seq::new(NUM_COUNTERS as nat, |k: int| 0u64));
            shards.push(z);
            i = i + 1;
        }
        let r = CounterBank { shards };
        assert(r@ =~= zero_bank(num_shards as nat));
        r
    }

    /// Number of shards.
    pub fn num_shards(&self) -> (r: usize)
        ensures
            r == self@.len(),
    {
        self.shards.len()
    }

    /// Counts one event of `counter` in shard `shard`; an unknown shard is
    /// ignored.
    pub fn increment(&mut self, shard: usize, counter: PageCacheCounter)
        ensures
            final(self)@ == incremented(old(self)@, shard as int, counter.spec_index() as int),
    {
        if shard < self.shards.len() {
            let c = counter.index();
            let mut cells = self.shards[shard];
            cells[c] = cells[c].saturating_add(1);
            self.shards.set(shard, cells);
        }
        assert(self@ =~= incremented(old(self)@, shard as int, counter.spec_index() as int));
    }

    /// Adds `n` events of `counter` to shard `shard`, saturating at
    /// `u64::MAX`; an unknown shard is ignored.
    pub fn add_count(&mut self, shard: usize, counter: PageCacheCounter, n: u64)
        ensures
            final(self)@ == if shard < old(self)@.len() {
                let c = counter.spec_index() as int;
                old(self)@.update(
                    shard as int,
                    old(self)@[shard as int].update(c, capped(old(self)@[shard as int][c] + n)),
                )
            } else {
                old(self)@
            },
    {
        if shard < self.shards.len() {
            let c = counter.index();
            let mut cells = self.shards[shard];
            cells[c] = cells[c].saturating_add(n);
            self.shards.set(shard, cells);
        }
        assert(self@ =~= if shard < old(self)@.len() {
            let c = counter.spec_index() as int;
            old(self)@.update(
                shard as int,
                old(self)@[shard as int].update(c, capped(old(self)@[shard as int][c] + n)),
            )
        } else {
            old(self)@
        });
    }

    /// Every counter summed over the shards, capped at `u64::MAX`.
    pub fn read_all(&self) -> (r: [u64; NUM_COUNTERS])
        ensures
            forall|c: int| 0 <= c < NUM_COUNTERS ==> r@[c] == capped(counter_sum(self@, c)),
    {
        let mut r = [0u64; NUM_COUNTERS];
        let mut c: usize = 0;
        while c < NUM_COUNTERS
            invariant
                c <= NUM_COUNTERS,
                forall|j: int| 0 <= j < c ==> r@[j] == capped(counter_sum(self@, j)),
            decreases NUM_COUNTERS - c,
        {
            r[c] = self.read(c);
            c = c + 1;
        }
        r
    }

    /// Counter `c` summed over the shards, capped at `u64::MAX`.
    pub fn read(&self, c: usize) -> (r: u64)
        requires
            c < NUM_COUNTERS,
        ensures
            r == capped(counter_sum(self@, c as int)),
    {
        let mut acc: u64 = 0;
        let mut s: usize = 0;
        while s < self.shards.len()
            invariant
                s <= self.shards.len(),
                c < NUM_COUNTERS,
                acc == capped(counter_sum(self@.take(s as int), c as int)),
            decreases self.shards.len() - s,
        {
            proof {
                assert(self@.take(s + 1).drop_last() =~= self@.take(s as int));
                lemma_sum_nonneg(self@.take(s as int), c as int);
            }
            acc = acc.saturating_add(self.shards[s][c]);
            s = s + 1;
        }
        assert(self@.take(s as int) =~= self@);
        acc
    }
}

proof fn lemma_sum_nonneg(v: Seq<Seq<u64>>, c: int)
    ensures
        counter_sum(v, c) >= 0,
    decreases v.len(),
{
    if v.len() > 0 {
        lemma_sum_nonneg(v.drop_last(), c);
    }
}

proof fn lemma_cell_below_sum(v: Seq<Seq<u64>>, s: int, c: int)
    requires
        0 <= s < v.len(),
    ensures
        v[s][c] <= counter_sum(v, c),
    decreases v.len(),
{
    lemma_sum_nonneg(v.drop_last(), c);
    if s < v.len() - 1 {
        lemma_cell_below_sum(v.drop_last(), s, c);
    }
}

proof fn lemma_sum_update(v: Seq<Seq<u64>>, s: int, row: Seq<u64>, c: int)
    requires
        0 <= s < v.len(),
    ensures
        counter_sum(v.update(s, row), c) == counter_sum(v, c) - v[s][c] + row[c],
    decreases v.len(),
{
    let w = v.update(s, row);
    if s < v.len() - 1 {
        assert(w.drop_last() =~= v.drop_last().update(s, row));
        lemma_sum_update(v.drop_last(), s, row, c);
    } else {
        assert(w.drop_last() =~= v.drop_last());
    }
}

/// The shards `v` after the events `evs`, each a shard and a counter index,
/// in order.
pub open spec fn after_events(v: Seq<Seq<u64>>, evs: Seq<(int, int)>) -> Seq<Seq<u64>>
    decreases evs.len(),
{
    if evs.len() == 0 {
        v
    } else {
        let w = after_events(v, evs.drop_last());
        incremented(w, evs.last().0, evs.last().1)
    }
}

/// How many of `evs` are for counter `c`.
pub open spec fn count_events(evs: Seq<(int, int)>, c: int) -> int
    decreases evs.len(),
{
    if evs.len() == 0 {
        0
    } else {
        count_events(evs.drop_last(), c) + if evs.last().1 == c {
            1int
        } else {
            0int
        }
    }
}

proof fn lemma_count_bounded(evs: Seq<(int, int)>, c: int)
    ensures
        0 <= count_events(evs, c) <= evs.len(),
    decreases evs.len(),
{
    if evs.len() > 0 {
        lemma_count_bounded(evs.drop_last(), c);
    }
}

/// Starting from all zeros, any number of events up to `u64::MAX`, spread
/// over the shards in any way, sum to exactly the number of events of each
/// counter.
pub proof fn lemma_increments_sum(num_shards: nat, evs: Seq<(int, int)>, c: int)
    requires
        evs.len() <= u64::MAX,
        0 <= c < NUM_COUNTERS,
        forall|i: int|
            0 <= i < evs.len() ==> 0 <= #[trigger] evs[i].0 < num_shards && 0 <= evs[i].1
                < NUM_COUNTERS,
    ensures
        counter_sum(
            after_events(
                zero_bank(num_shards),
                evs,
            ),
            c,
        ) == count_events(evs, c),
    decreases evs.len(),
{
    let z = zero_bank(num_shards);
    if evs.len() == 0 {
        lemma_zero_sum(num_shards, c);
    } else {
        let pre = evs.drop_last();
        assert forall|i: int| 0 <= i < pre.len() implies 0 <= #[trigger] pre[i].0 < num_shards
            && 0 <= pre[i].1 < NUM_COUNTERS by {
            assert(pre[i] == evs[i]);
        }
        lemma_increments_sum(num_shards, pre, c);
        let w = after_events(z, pre);
        lemma_rows_sized(num_shards, pre);
        let (s, d) = evs.last();
        assert(evs.last() == evs[evs.len() - 1]);
        lemma_count_bounded(pre, d);
        lemma_increments_sum(num_shards, pre, d);
        lemma_cell_below_sum(w, s, d);
        let row = w[s].update(d, (w[s][d] + 1) as u64);
        lemma_sum_update(w, s, row, c);
    }
}

proof fn lemma_zero_sum(n: nat, c: int)
    requires
        0 <= c < NUM_COUNTERS,
    ensures
        counter_sum(zero_bank(n), c) == 0,
    decreases n,
{
    if n > 0 {
        let z = zero_bank(n);
        assert(z.drop_last() =~= zero_bank((n - 1) as nat));
        lemma_zero_sum((n - 1) as nat, c);
        assert(z.last()[c] == 0);
    }
}

proof fn lemma_rows_sized(num_shards: nat, evs: Seq<(int, int)>)
    requires
        forall|i: int|
            0 <= i < evs.len() ==> 0 <= #[trigger] evs[i].0 < num_shards && 0 <= evs[i].1
                < NUM_COUNTERS,
    ensures
        after_events(
            zero_bank(num_shards),
            evs,
        ).len() == num_shards,
        forall|s: int|
            0 <= s < num_shards ==> (#[trigger] after_events(
                zero_bank(num_shards),
                evs,
            )[s]).len() == NUM_COUNTERS,
    decreases evs.len(),
{
    if evs.len() > 0 {
        let pre = evs.drop_last();
        assert forall|i: int| 0 <= i < pre.len() implies 0 <= #[trigger] pre[i].0 < num_shards
            && 0 <= pre[i].1 < NUM_COUNTERS by {
            assert(pre[i] == evs[i]);
        }
        lemma_rows_sized(num_shards, pre);
        assert(evs.last() == evs[evs.len() - 1]);
    }
}

/// A page was accessed on execution unit `cpu`.
pub fn mark_page_accessed(bank: &mut CounterBank, cpu: usize)
    ensures
        final(bank)@ == incremented(old(bank)@, cpu as int, 0),
{
    bank.increment(cpu, PageCacheCounter::PageAccessed);
}

/// A page was added to the page cache on execution unit `cpu`.
pub fn add_to_page_cache_lru(bank: &mut CounterBank, cpu: usize)
    ensures
        final(bank)@ == incremented(old(bank)@, cpu as int, 1),
{
    bank.increment(cpu, PageCacheCounter::AddedToCache);
}

/// A buffer was marked dirty on execution unit `cpu`.
pub fn mark_buffer_dirty(bank: &mut CounterBank, cpu: usize)
    ensures
        final(bank)@ == incremented(old(bank)@, cpu as int, 2),
{
    bank.increment(cpu, PageCacheCounter::MarkedDirty);
}

} // verus!
