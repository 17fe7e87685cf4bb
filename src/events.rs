//! Reactions to block-layer and NVMe events: latency from an embedded start
//! time, or from the correlation store, recorded into the sharded histograms.

use vstd::prelude::*;
use crate::codec::{encoding, CompoundIdentity, DiskLatencyHistogramKey, NvneHistogramKey};
use crate::correlation::{
    after_start, entry_for, has_cid, lemma_start_bounded, lemma_unmatched_finds_nothing,
    tracker_entry, without, CorrelationStore, TrackedCommand,
};
use crate::counters::{zero_bank, CounterBank};
use crate::histogram::{admits, sharded_observed, ShardedHistogram};

verus! {

/// Number of identities each histogram shard keeps.
pub const HISTOGRAM_MAX_ENTRIES: usize = 1000;

/// Everything the event handlers write to, built once at startup: the NVMe
/// correlation store, the block and NVMe latency histograms, and the
/// page-cache counters, each histogram and the counters with one shard per
/// execution unit.
pub struct IoContext {
    pub store: CorrelationStore,
    pub block: ShardedHistogram,
    pub nvme: ShardedHistogram,
    pub counters: CounterBank,
}

impl IoContext {
    /// The invariant of each part.
    pub open spec fn wf(&self) -> bool {
        &&& self.store.wf()
        &&& self.block.wf()
        &&& self.nvme.wf()
    }

    /// Empty tables for `num_shards` execution units, a store of
    /// `store_capacity` commands, and histogram shards of `max_identities`.
    pub fn new(num_shards: usize, store_capacity: usize, max_identities: usize) -> (r: Self)
        requires
            store_capacity > 0,
        ensures
            r.wf(),
            r.store@ == Seq::<TrackedCommand>::empty(),
            r.store.capacity() == store_capacity,
            r.block@ == Seq::new(num_shards as nat, |i: int| Map::<Seq<u8>, Seq<u64>>::empty()),
            r.nvme@ == Seq::new(num_shards as nat, |i: int| Map::<Seq<u8>, Seq<u64>>::empty()),
            r.block.max_entries() == max_identities,
            r.nvme.max_entries() == max_identities,
            r.counters@ == zero_bank(num_shards as nat),
    {
        IoContext {
            store: CorrelationStore::new(store_capacity),
            block: ShardedHistogram::new(num_shards, max_identities),
            nvme: ShardedHistogram::new(num_shards, max_identities),
            counters: CounterBank::new(num_shards),
        }
    }
}

/// The time from `start` to `end`; none when `end` comes before `start`,
/// which a monotonic clock never gives and which is dropped.
pub open spec fn elapsed(start: u64, end: u64) -> Option<u64> {
    if start <= end {
        Some((end - start) as u64)
    } else {
        None
    }
}

/// The latency a completion of `cid` at `now` has against the slots `s`.
pub open spec fn completion_latency(s: Seq<TrackedCommand>, cid: u16, now: u64) -> Option<u64> {
    match entry_for(s, cid) {
        Some(e) => elapsed(e.from, now),
        None => None,
    }
}

/// The encoded identity of a disk.
pub open spec fn disk_key(major: i32, minor: i32) -> Seq<u8> {
    encoding(CompoundIdentity::Disk(DiskLatencyHistogramKey { major, minor }))
}

/// Elapsed time from `start` to `end`.
pub fn latency(start: u64, end: u64) -> (r: Option<u64>)
    ensures
        r == elapsed(start, end),
{
    if start <= end {
        Some(end - start)
    } else {
        None
    }
}

/// A block request completed at `now` on device `major:minor`; its record
/// carries the time `io_start_time_ns` it started. The latency is recorded in
/// shard `cpu`. Returns whether it was recorded.
pub fn block_rq_complete(
    hist: &mut ShardedHistogram,
    cpu: usize,
    major: i32,
    minor: i32,
    io_start_time_ns: u64,
    now: u64,
) -> (recorded: bool)
    requires
        old(hist).wf(),
    ensures
        final(hist).wf(),
        final(hist).max_entries() == old(hist).max_entries(),
        final(hist)@ == match elapsed(io_start_time_ns, now) {
            Some(l) => sharded_observed(
                old(hist)@,
                old(hist).max_entries(),
                cpu as int,
                disk_key(major, minor),
                l,
            ),
            None => old(hist)@,
        },
        recorded == (elapsed(io_start_time_ns, now) is Some && admits(
            old(hist)@,
            old(hist).max_entries(),
            cpu as int,
            disk_key(major, minor),
        )),
{
    match latency(io_start_time_ns, now) {
        Some(l) => {
            let id = CompoundIdentity::Disk(DiskLatencyHistogramKey { major, minor });
            let key = id.encode();
            hist.observe(cpu, &key, l)
        },
        None => false,
    }
}

/// An NVMe command `cid` with `opcode` was set up at `now`.
pub fn nvme_setup_cmd(store: &mut CorrelationStore, cid: u16, opcode: u8, now: u64)
    requires
        old(store).wf(),
    ensures
        final(store).wf(),
        final(store).capacity() == old(store).capacity(),
        final(store)@ == after_start(
            old(store)@,
            old(store).capacity(),
            TrackedCommand { cid, entry: tracker_entry(now, opcode) },
        ),
{
    store.record_start(cid, now, opcode);
}

/// Correlates the completion of NVMe command `cid` at `now` on the disk whose
/// name fills the first 31 bytes of `disk`: consumes the command's entry and
/// gives the series identity (disk and opcode) and the latency. `None` when
/// the command is unknown (never set up, or evicted) or completed before it
/// started.
pub fn try_nvme_complete_rq(store: &mut CorrelationStore, disk: [u8; 32], cid: u16, now: u64) -> (r:
    Option<(NvneHistogramKey, u64)>)
    requires
        old(store).wf(),
    ensures
        final(store).wf(),
        final(store).capacity() == old(store).capacity(),
        final(store)@ == without(old(store)@, cid),
        match r {
            Some((k, l)) => completion_latency(old(store)@, cid, now) == Some(l)
                && k.opaque@ == disk@.update(31, entry_for(old(store)@, cid)->0.opcode),
            None => completion_latency(old(store)@, cid, now) is None,
        },
{
    match store.take_start(cid) {
        Some(entry) => match latency(entry.from, now) {
            Some(l) => Some((NvneHistogramKey::new(disk, entry.opcode), l)),
            None => None,
        },
        None => None,
    }
}

/// The encoded identity of NVMe commands with `opcode` on the disk named by
/// the first 31 bytes of `disk`.
pub open spec fn nvme_key(disk: Seq<u8>, opcode: u8) -> Seq<u8> {
    disk.update(31, opcode)
}

/// An NVMe command `cid` completed at `now` on `disk`: its latency, when it
/// can be correlated, is recorded in shard `cpu`; an unmatched completion
/// records nothing. Returns whether a latency was recorded.
pub fn nvme_complete_rq(
    store: &mut CorrelationStore,
    hist: &mut ShardedHistogram,
    cpu: usize,
    disk: [u8; 32],
    cid: u16,
    now: u64,
) -> (recorded: bool)
    requires
        old(store).wf(),
        old(hist).wf(),
    ensures
        final(store).wf(),
        final(store).capacity() == old(store).capacity(),
        final(store)@ == without(old(store)@, cid),
        final(hist).wf(),
        final(hist).max_entries() == old(hist).max_entries(),
        match completion_latency(old(store)@, cid, now) {
            Some(l) => {
                let key = nvme_key(disk@, entry_for(old(store)@, cid)->0.opcode);
                &&& final(hist)@ == sharded_observed(
                    old(hist)@,
                    old(hist).max_entries(),
                    cpu as int,
                    key,
                    l,
                )
                &&& recorded == admits(old(hist)@, old(hist).max_entries(), cpu as int, key)
            },
            None => final(hist)@ == old(hist)@ && !recorded,
        },
{
    match try_nvme_complete_rq(store, disk, cid, now) {
        Some((k, l)) => {
            let key = CompoundIdentity::Nvme(k).encode();
            hist.observe(cpu, &key, l)
        },
        None => false,
    }
}

/// A command set up at `t0` and completed at `t1`, with no other event on
/// the store between, has latency exactly `t1 - t0`.
pub proof fn lemma_start_then_complete(
    s: Seq<TrackedCommand>,
    capacity: nat,
    cid: u16,
    opcode: u8,
    t0: u64,
    t1: u64,
)
    requires
        0 < capacity,
        s.len() <= capacity,
        crate::correlation::cids_unique(s),
        t0 <= t1,
    ensures
        completion_latency(
            after_start(s, capacity, TrackedCommand { cid, entry: tracker_entry(t0, opcode) }),
            cid,
            t1,
        ) == Some((t1 - t0) as u64),
{
    lemma_start_bounded(s, capacity, TrackedCommand { cid, entry: tracker_entry(t0, opcode) });
}

/// A completion whose command the store does not hold has no latency, so it
/// leaves the histograms as they were.
pub proof fn lemma_unmatched_completion(s: Seq<TrackedCommand>, cid: u16, now: u64)
    requires
        !has_cid(s, cid),
    ensures
        completion_latency(s, cid, now) is None,
{
    lemma_unmatched_finds_nothing(s, cid);
}

} // verus!
