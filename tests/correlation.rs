use ioexporter::correlation::{CorrelationStore, NvmeTrackerEntry, STATE_TRACKER_CAPACITY};
use ioexporter::counters::mark_page_accessed;
use ioexporter::events::{
    latency, nvme_complete_rq, nvme_setup_cmd, try_nvme_complete_rq, IoContext,
    HISTOGRAM_MAX_ENTRIES,
};
use ioexporter::histogram::ShardedHistogram;

#[test]
fn start_then_complete_gives_exact_latency() {
    let mut store = CorrelationStore::new(STATE_TRACKER_CAPACITY);
    nvme_setup_cmd(&mut store, 7, 0x02, 1_000);
    let disk = [0u8; 32];
    let r = try_nvme_complete_rq(&mut store, disk, 7, 5_500);
    let (key, l) = r.expect("matched completion");
    assert_eq!(l, 4_500);
    assert_eq!(key.opaque[31], 0x02);
    assert_eq!(store.len(), 0);
}

#[test]
fn completion_consumes_the_entry() {
    let mut store = CorrelationStore::new(4);
    store.record_start(1, 10, 0);
    assert_eq!(store.take_start(1), Some(NvmeTrackerEntry::new(10, 0)));
    assert_eq!(store.take_start(1), None);
}

#[test]
fn unmatched_completion_records_nothing() {
    let mut store = CorrelationStore::new(4);
    let mut hist = ShardedHistogram::new(2, 16);
    assert!(!nvme_complete_rq(&mut store, &mut hist, 0, [0u8; 32], 42, 100));
    let merged = hist.merge();
    assert_eq!(merged.len(), 0);
}

#[test]
fn completion_before_start_is_dropped() {
    let mut store = CorrelationStore::new(4);
    store.record_start(3, 500, 1);
    assert_eq!(try_nvme_complete_rq(&mut store, [0u8; 32], 3, 100), None);
    assert_eq!(latency(500, 100), None);
    assert_eq!(latency(100, 500), Some(400));
}

#[test]
fn restart_overwrites_entry() {
    let mut store = CorrelationStore::new(4);
    store.record_start(5, 100, 1);
    store.record_start(5, 300, 2);
    assert_eq!(store.len(), 1);
    assert_eq!(store.take_start(5), Some(NvmeTrackerEntry::new(300, 2)));
}

#[test]
fn over_capacity_evicts_least_recently_used() {
    let mut store = CorrelationStore::new(3);
    store.record_start(1, 1, 0);
    store.record_start(2, 2, 0);
    store.record_start(3, 3, 0);
    store.record_start(4, 4, 0);
    assert_eq!(store.len(), 3);
    store.record_start(5, 5, 0);
    assert_eq!(store.len(), 3);
    assert_eq!(store.take_start(1), None);
    assert_eq!(store.take_start(2), None);
    assert_eq!(store.take_start(3), Some(NvmeTrackerEntry::new(3, 0)));
    assert_eq!(store.take_start(4), Some(NvmeTrackerEntry::new(4, 0)));
    assert_eq!(store.take_start(5), Some(NvmeTrackerEntry::new(5, 0)));
}

#[test]
fn touching_a_key_protects_it_from_eviction() {
    let mut store = CorrelationStore::new(2);
    store.record_start(1, 1, 0);
    store.record_start(2, 2, 0);
    store.record_start(1, 3, 0);
    store.record_start(9, 4, 0);
    assert_eq!(store.take_start(2), None);
    assert_eq!(store.take_start(1), Some(NvmeTrackerEntry::new(3, 0)));
    assert_eq!(store.take_start(9), Some(NvmeTrackerEntry::new(4, 0)));
}

#[test]
fn nvme_completion_recorded_in_shard() {
    let mut store = CorrelationStore::new(8);
    let mut hist = ShardedHistogram::new(2, 8);
    let mut disk = [0u8; 32];
    disk[..7].copy_from_slice(b"nvme0n1");
    nvme_setup_cmd(&mut store, 11, 0x01, 1_000);
    assert!(nvme_complete_rq(&mut store, &mut hist, 1, disk, 11, 3_000));
    let shard = hist.shard(1);
    let table = shard.table();
    assert_eq!(table.len(), 1);
    let key = table.key_at(0);
    assert_eq!(key.len(), 32);
    assert_eq!(key[31], 0x01);
    assert_eq!(&key[..7], b"nvme0n1");
    let counts = table.counts_at(0);
    assert_eq!(counts[10], 1);
    assert_eq!(counts.iter().sum::<u64>(), 1);
}

#[test]
fn context_wires_handlers_together() {
    let mut ctx = IoContext::new(2, STATE_TRACKER_CAPACITY, HISTOGRAM_MAX_ENTRIES);
    nvme_setup_cmd(&mut ctx.store, 1, 0x02, 100);
    assert!(nvme_complete_rq(&mut ctx.store, &mut ctx.nvme, 0, [0u8; 32], 1, 600));
    mark_page_accessed(&mut ctx.counters, 1);
    assert_eq!(ctx.nvme.merge().len(), 1);
    assert_eq!(ctx.block.merge().len(), 0);
    assert_eq!(ctx.counters.read_all(), [1, 0, 0]);
}

#[test]
fn other_commands_between_start_and_completion() {
    let mut store = CorrelationStore::new(4);
    nvme_setup_cmd(&mut store, 1, 0x01, 100);
    nvme_setup_cmd(&mut store, 2, 0x02, 150);
    let (_, l2) = try_nvme_complete_rq(&mut store, [0u8; 32], 2, 170).expect("matched");
    assert_eq!(l2, 20);
    let (k1, l1) = try_nvme_complete_rq(&mut store, [0u8; 32], 1, 400).expect("matched");
    assert_eq!(l1, 300);
    assert_eq!(k1.opaque[31], 0x01);
}
