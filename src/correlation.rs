//! Bounded correlation store that pairs an NVMe command's setup event with its
//! completion event, evicting the least recently used entry when full.

use vstd::prelude::*;

verus! {

/// Number of in-flight commands the store keeps before it evicts.
pub const STATE_TRACKER_CAPACITY: usize = 1000;

/// What is remembered of a command between its setup and its completion.
#[derive(Clone, Copy, Debug, PartialEq, Eq, Structural)]
pub struct NvmeTrackerEntry {
    pub from: u64,
    pub opcode: u8,
    pub pad1: u8,
    pub pad2: u16,
    pub pad3: u32,
}

/// One occupied slot of the store: a command identifier and its entry.
#[derive(Clone, Copy, Debug, PartialEq, Eq, Structural)]
pub struct TrackedCommand {
    pub cid: u16,
    pub entry: NvmeTrackerEntry,
}

pub open spec fn tracker_entry(from: u64, opcode: u8) -> NvmeTrackerEntry {
    NvmeTrackerEntry { from, opcode, pad1: 0, pad2: 0, pad3: 0 }
}

impl NvmeTrackerEntry {
    /// An entry started at `from` for a command with `opcode`, padding zeroed.
    pub fn new(from: u64, opcode: u8) -> (r: Self)
        ensures
            r == tracker_entry(from, opcode),
    {
        NvmeTrackerEntry { from, opcode, pad1: 0, pad2: 0, pad3: 0 }
    }
}

/// Whether some slot of `s` holds `cid`.
pub open spec fn has_cid(s: Seq<TrackedCommand>, cid: u16) -> bool {
    exists|i: int| 0 <= i < s.len() && s[i].cid == cid
}

/// No two slots hold the same command identifier.
pub open spec fn cids_unique(s: Seq<TrackedCommand>) -> bool {
    forall|i: int, j: int| 0 <= i < j < s.len() ==> s[i].cid != s[j].cid
}

/// The slots of `s` that do not hold `cid`, in their order.
pub open spec fn without(s: Seq<TrackedCommand>, cid: u16) -> Seq<TrackedCommand> {
    s.filter(|t: TrackedCommand| t.cid != cid)
}

/// The entry stored for `cid`, if any.
pub open spec fn entry_for(s: Seq<TrackedCommand>, cid: u16) -> Option<NvmeTrackerEntry> {
    if has_cid(s, cid) {
        Some(s[choose|i: int| 0 <= i < s.len() && s[i].cid == cid].entry)
    } else {
        None
    }
}

/// The slots after a start event `c`, oldest first: any slot for the same
/// identifier is replaced, and when the store is full of other identifiers the
/// least recently used slot (the first) is evicted.
pub open spec fn after_start(s: Seq<TrackedCommand>, capacity: nat, c: TrackedCommand) -> Seq<
    TrackedCommand,
> {
    let rest = without(s, c.cid);
    if rest.len() < capacity {
        rest.push(c)
    } else {
        rest.drop_first().push(c)
    }
}

/// Slots ordered from least to most recently used, with at most `capacity` of
/// them and no identifier twice.
pub struct CorrelationStore {
    slots: Vec<TrackedCommand>,
    capacity: usize,
}

impl View for CorrelationStore {
    type V = Seq<TrackedCommand>;

    closed spec fn view(&self) -> Seq<TrackedCommand> {
        self.slots@
    }
}

proof fn lemma_filter_keeps_all(s: Seq<TrackedCommand>, cid: u16)
    requires
        !has_cid(s, cid),
    ensures
        without(s, cid) == s,
    decreases s.len(),
{
    reveal(Seq::filter);
    if s.len() > 0 {
        assert(!has_cid(s.drop_last(), cid)) by {
            if has_cid(s.drop_last(), cid) {
                let i = choose|i: int| 0 <= i < s.drop_last().len() && s.drop_last()[i].cid == cid;
                assert(s[i].cid == cid);
            }
        }
        lemma_filter_keeps_all(s.drop_last(), cid);
        assert(s.last().cid != cid) by {
            assert(s[s.len() - 1].cid == s.last().cid);
        }
        assert(s.drop_last().push(s.last()) =~= s);
    }
}

proof fn lemma_filter_removes_one(s: Seq<TrackedCommand>, cid: u16, i: int)
    requires
        cids_unique(s),
        0 <= i < s.len(),
        s[i].cid == cid,
    ensures
        without(s, cid) == s.remove(i),
{
    let a = s.subrange(0, i);
    let b = s.subrange(i + 1, s.len() as int);
    let one = seq![s[i]];
    assert(s =~= a + one + b);
    assert(!has_cid(a, cid)) by {
        if has_cid(a, cid) {
            let j = choose|j: int| 0 <= j < a.len() && a[j].cid == cid;
            assert(s[j].cid == cid);
        }
    }
    assert(!has_cid(b, cid)) by {
        if has_cid(b, cid) {
            let j = choose|j: int| 0 <= j < b.len() && b[j].cid == cid;
            assert(s[i + 1 + j].cid == cid);
        }
    }
    lemma_filter_keeps_all(a, cid);
    lemma_filter_keeps_all(b, cid);
    let p = |t: TrackedCommand| t.cid != cid;
    Seq::filter_distributes_over_add(a + one, b, p);
    Seq::filter_distributes_over_add(a, one, p);
    reveal(Seq::filter);
    assert(one.drop_last() =~= Seq::<TrackedCommand>::empty());
    assert(one.drop_last().filter(p) =~= Seq::<TrackedCommand>::empty());
    assert(!p(one.last()));
    assert(one.filter(p) =~= Seq::<TrackedCommand>::empty());
    assert(s.remove(i) =~= a + b);
}

proof fn lemma_entry_for_at(s: Seq<TrackedCommand>, cid: u16, i: int)
    requires
        cids_unique(s),
        0 <= i < s.len(),
        s[i].cid == cid,
    ensures
        entry_for(s, cid) == Some(s[i].entry),
{
}

impl CorrelationStore {
    /// The store's invariant.
    pub closed spec fn wf(&self) -> bool {
        &&& 0 < self.capacity
        &&& self.slots.len() <= self.capacity
        &&& cids_unique(self.slots@)
    }

    /// How many slots the store may hold.
    pub closed spec fn capacity(&self) -> nat {
        self.capacity as nat
    }

    /// An empty store that holds up to `capacity` in-flight commands.
    pub fn new(capacity: usize) -> (r: Self)
        requires
            capacity > 0,
        ensures
            r.wf(),
            r@ == Seq::<TrackedCommand>::empty(),
            r.capacity() == capacity,
    {
        CorrelationStore { slots: Vec::new(), capacity }
    }

    /// Number of occupied slots.
    pub fn len(&self) -> (r: usize)
        requires
            self.wf(),
        ensures
            r == self@.len(),
            r <= self.capacity(),
    {
        self.slots.len()
    }

    fn find(&self, cid: u16) -> (r: Option<usize>)
        requires
            self.wf(),
        ensures
            match r {
                Some(i) => i < self@.len() && self@[i as int].cid == cid,
                None => !has_cid(self@, cid),
            },
    {
        let mut i: usize = 0;
        while i < self.slots.len()
            invariant
                i <= self.slots.len(),
                forall|j: int| 0 <= j < i ==> self.slots@[j].cid != cid,
            decreases self.slots.len() - i,
        {
            if self.slots[i].cid == cid {
                return Some(i);
            }
            i = i + 1;
        }
        None
    }

    /// Records that command `cid` started at `start_time` with `opcode`.
    /// A slot already held by `cid` is overwritten; when the store is full of
    /// other commands the least recently used one is evicted.
    pub fn record_start(&mut self, cid: u16, start_time: u64, opcode: u8)
        requires
            old(self).wf(),
        ensures
            final(self).wf(),
            final(self).capacity() == old(self).capacity(),
            final(self)@ == after_start(
                old(self)@,
                old(self).capacity(),
                TrackedCommand { cid, entry: tracker_entry(start_time, opcode) },
            ),
    {
        let c = TrackedCommand { cid, entry: NvmeTrackerEntry::new(start_time, opcode) };
        let ghost s = self.slots@;
        match self.find(cid) {
            Some(i) => {
                proof {
                    lemma_filter_removes_one(s, cid, i as int);
                }
                self.slots.remove(i);
            },
            None => {
                proof {
                    lemma_filter_keeps_all(s, cid);
                }
                if self.slots.len() >= self.capacity {
                    self.slots.remove(0);
                    assert(self.slots@ =~= s.drop_first());
                }
            },
        }
        let ghost mid = self.slots@;
        self.slots.push(c);
    }

    /// Looks up and consumes the entry of command `cid`; `None` when `cid`
    /// was never started or its slot was evicted.
    pub fn take_start(&mut self, cid: u16) -> (r: Option<NvmeTrackerEntry>)
        requires
            old(self).wf(),
        ensures
            final(self).wf(),
            final(self).capacity() == old(self).capacity(),
            r == entry_for(old(self)@, cid),
            final(self)@ == without(old(self)@, cid),
    {
        let ghost s = self.slots@;
        match self.find(cid) {
            Some(i) => {
                proof {
                    lemma_filter_removes_one(s, cid, i as int);
                    lemma_entry_for_at(s, cid, i as int);
                }
                let t = self.slots.remove(i);
                Some(t.entry)
            },
            None => {
                proof {
                    lemma_filter_keeps_all(s, cid);
                }
                None
            },
        }
    }
}

/// A start event never makes the store hold more than its capacity, and the
/// started command can be found right after it.
pub proof fn lemma_start_bounded(s: Seq<TrackedCommand>, capacity: nat, c: TrackedCommand)
    requires
        0 < capacity,
        s.len() <= capacity,
        cids_unique(s),
    ensures
        after_start(s, capacity, c).len() <= capacity,
        cids_unique(after_start(s, capacity, c)),
        entry_for(after_start(s, capacity, c), c.cid) == Some(c.entry),
{
    let rest = without(s, c.cid);
    if has_cid(s, c.cid) {
        let i = choose|i: int| 0 <= i < s.len() && s[i].cid == c.cid;
        lemma_filter_removes_one(s, c.cid, i);
    } else {
        lemma_filter_keeps_all(s, c.cid);
    }
    let r = after_start(s, capacity, c);
    assert(forall|j: int| 0 <= j < rest.len() ==> rest[j].cid != c.cid);
    lemma_entry_for_at(r, c.cid, r.len() - 1);
}

/// On a full store, starting a command whose identifier is not held evicts
/// exactly the least recently used slot and keeps every other slot in order.
pub proof fn lemma_full_store_evicts_least_recent(
    s: Seq<TrackedCommand>,
    capacity: nat,
    c: TrackedCommand,
)
    requires
        0 < capacity,
        s.len() == capacity,
        cids_unique(s),
        !has_cid(s, c.cid),
    ensures
        after_start(s, capacity, c) == s.drop_first().push(c),
        after_start(s, capacity, c).len() == capacity,
        !has_cid(after_start(s, capacity, c), s[0].cid),
{
    lemma_filter_keeps_all(s, c.cid);
    let r = after_start(s, capacity, c);
    assert(!has_cid(r, s[0].cid)) by {
        if has_cid(r, s[0].cid) {
            let j = choose|j: int| 0 <= j < r.len() && r[j].cid == s[0].cid;
            if j < r.len() - 1 {
                assert(r[j] == s[j + 1]);
            }
        }
    }
}

/// A start event for another command leaves the entry of `cid` as it was,
/// unless it evicted it.
pub proof fn lemma_other_start_keeps_entry(
    s: Seq<TrackedCommand>,
    capacity: nat,
    c: TrackedCommand,
    cid: u16,
)
    requires
        0 < capacity,
        s.len() <= capacity,
        cids_unique(s),
        c.cid != cid,
        has_cid(after_start(s, capacity, c), cid),
    ensures
        entry_for(after_start(s, capacity, c), cid) == entry_for(s, cid),
{
    let rest = without(s, c.cid);
    let r = after_start(s, capacity, c);
    lemma_start_bounded(s, capacity, c);
    if has_cid(s, c.cid) {
        let i = choose|i: int| 0 <= i < s.len() && s[i].cid == c.cid;
        lemma_filter_removes_one(s, c.cid, i);
    } else {
        lemma_filter_keeps_all(s, c.cid);
    }
    let j = choose|j: int| 0 <= j < r.len() && r[j].cid == cid;
    assert(j < r.len() - 1);
    let jr = if rest.len() < capacity { j } else { j + 1 };
    assert(r[j] == rest[jr]);
    let js = if has_cid(s, c.cid) {
        let i = choose|i: int| 0 <= i < s.len() && s[i].cid == c.cid;
        if jr < i { jr } else { jr + 1 }
    } else {
        jr
    };
    assert(rest[jr] == s[js]);
    lemma_entry_for_at(s, cid, js);
    lemma_entry_for_at(r, cid, j);
}

/// The completion of another command leaves the entry of `cid` as it was.
pub proof fn lemma_other_completion_keeps_entry(s: Seq<TrackedCommand>, other: u16, cid: u16)
    requires
        cids_unique(s),
        other != cid,
    ensures
        entry_for(without(s, other), cid) == entry_for(s, cid),
{
    if has_cid(s, other) {
        let i = choose|i: int| 0 <= i < s.len() && s[i].cid == other;
        lemma_filter_removes_one(s, other, i);
        let w = s.remove(i);
        if has_cid(s, cid) {
            let j = choose|j: int| 0 <= j < s.len() && s[j].cid == cid;
            lemma_entry_for_at(s, cid, j);
            let jw = if j < i { j } else { j - 1 };
            assert(w[jw] == s[j]);
            assert(cids_unique(w));
            lemma_entry_for_at(w, cid, jw);
        } else if has_cid(w, cid) {
            let j = choose|j: int| 0 <= j < w.len() && w[j].cid == cid;
            let js = if j < i { j } else { j + 1 };
            assert(w[j] == s[js]);
        }
    } else {
        lemma_filter_keeps_all(s, other);
    }
}

/// A completion for an identifier that the store does not hold finds nothing.
pub proof fn lemma_unmatched_finds_nothing(s: Seq<TrackedCommand>, cid: u16)
    requires
        !has_cid(s, cid),
    ensures
        entry_for(s, cid) is None,
        without(s, cid) == s,
{
    lemma_filter_keeps_all(s, cid);
}

} // verus!
