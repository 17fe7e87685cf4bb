//! Rendering of a merged histogram into labelled cumulative series.

use vstd::prelude::*;
use crate::codec::{decoding, CompoundIdentity};
use crate::histogram::{cumulative, cumulative_count, BucketTable, NUM_BUCKETS};
use crate::labels::{identity_labels, pair_views};

verus! {

/// One exported series: its labels, the cumulative count at each bucket's
/// upper bound, and the total number of observations.
#[derive(Debug)]
pub struct Series {
    pub labels: Vec<(String, String)>,
    pub cumulative: [u64; NUM_BUCKETS],
    pub count: u64,
}

/// Whether `s` is the series of the identity stored under `key` with bucket
/// counts `counts`.
pub open spec fn series_of(s: Series, key: Seq<u8>, counts: Seq<u64>) -> bool {
    &&& decoding(key) is Some
    &&& pair_views(s.labels@) == identity_labels(decoding(key)->0)
    &&& forall|b: int|
        0 <= b < NUM_BUCKETS ==> #[trigger] s.cumulative@[b] == cumulative_count(counts, b + 1)
    &&& s.count == cumulative_count(counts, NUM_BUCKETS as int)
}

/// Whether `s` is the series of some identity of `m`.
pub open spec fn from_table(s: Series, m: Map<Seq<u8>, Seq<u64>>) -> bool {
    exists|k: Seq<u8>| #[trigger] m.contains_key(k) && series_of(s, k, m[k])
}

/// Every series of `rs` is the series of some identity of `m`.
pub open spec fn each_from_table(rs: Seq<Series>, m: Map<Seq<u8>, Seq<u64>>) -> bool {
    forall|j: int| 0 <= j < rs.len() ==> #[trigger] from_table(rs[j], m)
}

/// Every identity of `m` that decodes has its series in `rs`.
pub open spec fn covers_table(rs: Seq<Series>, m: Map<Seq<u8>, Seq<u64>>) -> bool {
    forall|k: Seq<u8>|
        #[trigger] m.contains_key(k) && decoding(k) is Some ==> exists|j: int|
            0 <= j < rs.len() && series_of(rs[j], k, m[k])
}

/// The series of a merged table: one for each series of the table whose key
/// decodes to an identity, in the table's order; a key that decodes to none
/// is left out.
pub fn export_series(table: &BucketTable) -> (r: Vec<Series>)
    requires
        table.wf(),
    ensures
        each_from_table(r@, table@),
        covers_table(r@, table@),
{
    let n = table.len();
    let mut r: Vec<Series> = Vec::new();
    let ghost mut src: Seq<int> = Seq::empty();
    let mut i: usize = 0;
    while i < n
        invariant
            i <= n,
            n == table@.dom().len(),
            table.wf(),
            src.len() == r@.len(),
            forall|j: int|
                0 <= j < r@.len() ==> 0 <= #[trigger] src[j] < i && series_of(
                    r@[j],
                    table.key_at_spec(src[j]),
                    table.counts_at_spec(src[j]),
                ),
            forall|p: int|
                0 <= p < i && decoding(table.key_at_spec(p)) is Some ==> exists|j: int|
                    0 <= j < src.len() && #[trigger] src[j] == p,
        decreases n - i,
    {
        let key = table.key_at(i);
        let counts = table.counts_at(i);
        match CompoundIdentity::decode(key) {
            Some(id) => {
                let cum = cumulative(&counts);
                let s = Series { labels: id.labels(), cumulative: cum, count: cum[NUM_BUCKETS - 1] };
                r.push(s);
                proof {
                    let old_src = src;
                    src = src.push(i as int);
                    assert forall|p: int|
                        0 <= p < i + 1 && decoding(table.key_at_spec(p)) is Some implies exists|
                        j: int,
                    |
                        0 <= j < src.len() && #[trigger] src[j] == p by {
                        if p < i {
                            let j = choose|j: int| 0 <= j < old_src.len() && #[trigger] old_src[j] == p;
                            assert(src[j] == p);
                        } else {
                            assert(src[src.len() - 1] == p);
                        }
                    }
                }
            },
            None => {},
        }
        i = i + 1;
    }
    proof {
        table.lemma_positions();
        let rs = r@;
        let m = table@;
        assert forall|j: int| 0 <= j < rs.len() implies #[trigger] from_table(rs[j], m) by {
            let p = src[j];
            let k = table.key_at_spec(p);
            assert(m.contains_key(k));
            assert(series_of(rs[j], k, m[k]));
        }
        assert(each_from_table(rs, m));
        assert forall|k: Seq<u8>|
            #[trigger] table@.contains_key(k) && decoding(k) is Some implies exists|j: int|
                0 <= j < r@.len() && series_of(r@[j], k, table@[k]) by {
            let p = choose|p: int| 0 <= p < table@.dom().len() && table.key_at_spec(p) == k;
            assert(decoding(table.key_at_spec(p)) is Some);
            let j = choose|j: int| 0 <= j < src.len() && #[trigger] src[j] == p;
            assert(series_of(r@[j], table.key_at_spec(p), table.counts_at_spec(p)));
        }
        assert(covers_table(r@, table@));
    }
    r
}

} // verus!
