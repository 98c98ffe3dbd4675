//! Choosing the search for an index.

use vstd::prelude::*;
use crate::index::early::{
    early_result, fraud_count_early, fraud_count_scalar, is_early_count,
};
use crate::index::format::{clusters_of, forest_of, is_clusters, is_pairs};
use crate::index::hunt::{fraud_count_pair, hunt_result};
use crate::index::ivf::fraud_count_ivf;
use crate::index::reader::{is_searchable, IndexReader};
use crate::index::stats::QueryStats;
use crate::{K, STORE_DIM};

verus! {

/// Whether an index file can give this count for a query: a cluster index gives the count of its
/// cluster search, which looks further where the wide kernels are there; an index of coordinate
/// pairs is searched exactly; any other tree index is searched for close neighbours.
pub open spec fn fraud_result(b: Seq<u8>, wide: bool, q: Seq<i16>, count: int) -> bool {
    if is_clusters(b) {
        count == clusters_of(b).count(q, wide)
    } else if is_pairs(b) {
        hunt_result(forest_of(b), q, count)
    } else {
        is_early_count(forest_of(b), q, count)
    }
}

impl<'a> IndexReader<'a> {
    /// Counts the fraudulent ones among the five neighbours of a query.
    pub fn fraud_count(&self, query: &[i16; STORE_DIM]) -> (count: u8)
        requires
            self.wf(),
            is_searchable(self.bytes()),
        ensures
            fraud_result(self.bytes(), self.is_wide(), query@, count as int),
            count <= K,
    {
        if self.is_ivf() {
            return fraud_count_ivf(self, query);
        }
        if self.is_kd_pair() {
            return fraud_count_pair(self, query);
        }
        fraud_count_scalar(self, query)
    }

    /// Counts the fraudulent ones among the five neighbours of a query.
    pub fn fraud_count_exact(&self, query: &[i16; STORE_DIM]) -> (count: u8)
        requires
            self.wf(),
            is_searchable(self.bytes()),
        ensures
            fraud_result(self.bytes(), self.is_wide(), query@, count as int),
            count <= K,
    {
        self.fraud_count(query)
    }

    /// Counts the fraudulent ones among five neighbours of a query and adds the work to the
    /// counters. Only one search counts its work: that of coordinate pairs with the wide kernels
    /// that is content with close neighbours. Every other search leaves the counters as they are.
    pub fn fraud_count_with_stats(
        &self,
        query: &[i16; STORE_DIM],
        stats: &mut QueryStats,
    ) -> (count: u8)
        requires
            self.wf(),
            is_searchable(self.bytes()),
        ensures
            ({
                let b = self.bytes();
                if is_clusters(b) {
                    &&& count == self.clusters().count(query@, self.is_wide())
                    &&& *final(stats) == *old(stats)
                } else if is_pairs(b) && self.is_wide() {
                    early_result(self.forest(), query@, *old(stats), count as int, *final(stats))
                } else {
                    &&& is_early_count(self.forest(), query@, count as int)
                    &&& *final(stats) == *old(stats)
                }
            }),
            count <= K,
    {
        if self.is_ivf() {
            return fraud_count_ivf(self, query);
        }
        if self.is_kd_pair() && self.wide() {
            return fraud_count_early(self, query, stats);
        }
        fraud_count_scalar(self, query)
    }
}

} // verus!
