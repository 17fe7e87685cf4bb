use ioexporter::codec::{CompoundIdentity, DiskLatencyHistogramKey};
use ioexporter::events::block_rq_complete;
use ioexporter::export::export_series;
use ioexporter::histogram::{
    bucket_index, bucket_upper_bound, cumulative, BucketTable, HistogramShard, ShardedHistogram,
    NUM_BUCKETS,
};

fn disk(major: i32, minor: i32) -> Vec<u8> {
    CompoundIdentity::Disk(DiskLatencyHistogramKey { major, minor }).encode()
}

#[test]
fn buckets_are_logarithmic() {
    assert_eq!(bucket_index(0), 0);
    assert_eq!(bucket_index(1), 0);
    assert_eq!(bucket_index(2), 1);
    assert_eq!(bucket_index(3), 1);
    assert_eq!(bucket_index(4), 2);
    assert_eq!(bucket_index(500_000), 18);
    assert_eq!(bucket_index(1_500_000), 20);
    assert_eq!(bucket_index(u64::MAX), 63);
    assert_eq!(bucket_upper_bound(0), 1);
    assert_eq!(bucket_upper_bound(18), 524_287);
    assert_eq!(bucket_upper_bound(63), u64::MAX);
}

#[test]
fn cumulative_counts() {
    let mut c = [0u64; NUM_BUCKETS];
    c[0] = 2;
    c[3] = 5;
    c[63] = u64::MAX;
    let r = cumulative(&c);
    assert_eq!(r[0], 2);
    assert_eq!(r[2], 2);
    assert_eq!(r[3], 7);
    assert_eq!(r[62], 7);
    assert_eq!(r[63], u64::MAX);
}

#[test]
fn merge_sums_buckets_per_identity() {
    let mut h = ShardedHistogram::new(2, 16);
    let k = disk(8, 0);
    for _ in 0..3 {
        assert!(h.observe(0, &k, 100));
    }
    for _ in 0..4 {
        assert!(h.observe(1, &k, 100));
    }
    assert!(h.observe(1, &k, 5));
    let m = h.merge();
    assert_eq!(m.len(), 1);
    let c = m.get(&k);
    assert_eq!(c[bucket_index(100)], 7);
    assert_eq!(c[bucket_index(5)], 1);
}

#[test]
fn merge_of_empty_shards_has_no_series() {
    let h = ShardedHistogram::new(4, 16);
    let m = h.merge();
    assert_eq!(m.len(), 0);
    assert!(export_series(&m).is_empty());
}

#[test]
fn two_shards_one_device_export_one_series() {
    let mut h = ShardedHistogram::new(2, 16);
    assert!(block_rq_complete(&mut h, 0, 8, 0, 1_000_000, 1_500_000));
    assert!(block_rq_complete(&mut h, 1, 8, 0, 2_000_000, 3_500_000));
    let m = h.merge();
    assert_eq!(m.len(), 1);
    let series = export_series(&m);
    assert_eq!(series.len(), 1);
    let s = &series[0];
    assert_eq!(
        s.labels,
        vec![
            ("major".to_string(), "8".to_string()),
            ("minor".to_string(), "0".to_string())
        ]
    );
    assert_eq!(s.count, 2);
    assert_eq!(s.cumulative[17], 0);
    assert_eq!(s.cumulative[18], 1);
    assert_eq!(s.cumulative[19], 1);
    assert_eq!(s.cumulative[20], 2);
    assert_eq!(s.cumulative[63], 2);
}

#[test]
fn full_shard_drops_new_identities() {
    let mut s = HistogramShard::new(2);
    assert!(s.observe(&disk(1, 0), 10));
    assert!(s.observe(&disk(2, 0), 10));
    assert!(!s.observe(&disk(3, 0), 10));
    assert!(s.observe(&disk(1, 0), 10));
    assert_eq!(s.table().len(), 2);
    assert_eq!(s.table().get(&disk(3, 0)), [0u64; NUM_BUCKETS]);
    assert_eq!(s.table().get(&disk(1, 0))[bucket_index(10)], 2);
}

#[test]
fn unknown_shard_keeps_nothing() {
    let mut h = ShardedHistogram::new(2, 4);
    assert!(!h.observe(5, &disk(1, 0), 10));
    assert_eq!(h.merge().len(), 0);
}

#[test]
fn block_completion_before_start_is_dropped() {
    let mut h = ShardedHistogram::new(1, 4);
    assert!(!block_rq_complete(&mut h, 0, 8, 0, 10, 5));
    assert_eq!(h.merge().len(), 0);
}

#[test]
fn absorb_adds_tables() {
    let mut a = BucketTable::new();
    let mut b = BucketTable::new();
    a.observe_bucket(&disk(1, 1), 3);
    b.observe_bucket(&disk(1, 1), 3);
    b.observe_bucket(&disk(2, 2), 0);
    a.absorb(&b);
    assert_eq!(a.len(), 2);
    assert_eq!(a.get(&disk(1, 1))[3], 2);
    assert_eq!(a.get(&disk(2, 2))[0], 1);
}

#[test]
fn bucket_counter_saturates() {
    let mut a = BucketTable::new();
    let mut c = [0u64; NUM_BUCKETS];
    c[4] = u64::MAX;
    a.add_series(&disk(1, 1), &c);
    a.observe_bucket(&disk(1, 1), 4);
    assert_eq!(a.get(&disk(1, 1))[4], u64::MAX);
}
