use ioexporter::counters::{
    add_to_page_cache_lru, mark_buffer_dirty, mark_page_accessed, CounterBank, PageCacheCounter,
};

#[test]
fn first_read_is_all_zero() {
    let bank = CounterBank::new(4);
    assert_eq!(bank.read_all(), [0, 0, 0]);
}

#[test]
fn increments_across_shards_sum_exactly() {
    let mut bank = CounterBank::new(4);
    for i in 0..1000usize {
        mark_page_accessed(&mut bank, i % 4);
    }
    for i in 0..7usize {
        add_to_page_cache_lru(&mut bank, i % 3);
    }
    mark_buffer_dirty(&mut bank, 3);
    assert_eq!(bank.read_all(), [1000, 7, 1]);
    assert_eq!(bank.read(PageCacheCounter::PageAccessed.index()), 1000);
}

#[test]
fn unknown_shard_is_ignored() {
    let mut bank = CounterBank::new(2);
    bank.increment(2, PageCacheCounter::MarkedDirty);
    assert_eq!(bank.read_all(), [0, 0, 0]);
}
