//! Counters of the retrieval layer, and the integer part of retrieval evaluation.
use vstd::prelude::*;
use crate::text::str_eq;
use crate::cli::repl::string_views;

verus! {

/// Count, total, least and greatest of recorded latencies, in microseconds.
/// Count and total wrap around at `u64::MAX`; the least starts at `u64::MAX`.
pub struct StageLatencyTracker {
    pub count: u64,
    pub total_micros: u64,
    pub min_micros: u64,
    pub max_micros: u64,
}

pub open spec fn wrap_add(a: u64, b: u64) -> u64 {
    ((a as nat + b as nat) % 0x1_0000_0000_0000_0000) as u64
}

impl StageLatencyTracker {
    /// Nothing recorded yet: count and total 0, the least at `u64::MAX`, the
    /// greatest at 0.
    pub open spec fn nothing_recorded(self) -> bool {
        &&& self.count == 0
        &&& self.total_micros == 0
        &&& self.min_micros == u64::MAX
        &&& self.max_micros == 0
    }

    /// A tracker as `new` and `record` leave it: empty, or holding at least one
    /// latency with the least at most the greatest.
    pub open spec fn consistent(self) -> bool {
        ||| self.nothing_recorded()
        ||| (self.count > 0 && self.min_micros <= self.max_micros)
    }

    /// The least latency a snapshot reports: 0 while none is known.
    pub open spec fn least(self) -> u64 {
        if self.count > 0 && self.min_micros != u64::MAX { self.min_micros } else { 0 }
    }

    pub fn new() -> (t: StageLatencyTracker)
        ensures
            t.count == 0,
            t.total_micros == 0,
            t.min_micros == u64::MAX,
            t.max_micros == 0,
    {
        StageLatencyTracker { count: 0, total_micros: 0, min_micros: u64::MAX, max_micros: 0 }
    }

    /// Records one latency.
    pub fn record(&mut self, micros: u64)
        ensures
            final(self).count == wrap_add(old(self).count, 1),
            final(self).total_micros == wrap_add(old(self).total_micros, micros),
            final(self).min_micros == (if micros < old(self).min_micros { micros } else { old(self).min_micros }),
            final(self).max_micros == (if micros > old(self).max_micros { micros } else { old(self).max_micros }),
    {
        self.count = self.count.wrapping_add(1);
        self.total_micros = self.total_micros.wrapping_add(micros);
        if micros < self.min_micros {
            self.min_micros = micros;
        }
        if micros > self.max_micros {
            self.max_micros = micros;
        }
    }

    /// The least recorded latency, or 0 before any was recorded.
    pub fn min_or_zero(&self) -> (r: u64)
        ensures
            r == self.least(),
    {
        if self.count > 0 && self.min_micros != u64::MAX {
            self.min_micros
        } else {
            0
        }
    }
}

/// Recording a latency `u` below `u64::MAX`, without the count or the total
/// wrapping, counts it, adds it to the total, makes it the least when it is
/// the first or smaller than the least so far and the greatest when greater,
/// and leaves a consistent tracker whose snapshot's least is that least, at
/// most the greatest.
pub proof fn law_record_latency(before: StageLatencyTracker, after: StageLatencyTracker, u: u64)
    requires
        before.consistent(),
        u < u64::MAX,
        before.count < u64::MAX,
        before.total_micros + u <= u64::MAX,
        after.count == wrap_add(before.count, 1),
        after.total_micros == wrap_add(before.total_micros, u),
        after.min_micros == (if u < before.min_micros { u } else { before.min_micros }),
        after.max_micros == (if u > before.max_micros { u } else { before.max_micros }),
    ensures
        after.count == before.count + 1,
        after.total_micros == before.total_micros + u,
        after.min_micros == (if before.count == 0 { u } else if u < before.min_micros { u } else { before.min_micros }),
        after.max_micros == (if u > before.max_micros { u } else { before.max_micros }),
        after.least() == after.min_micros,
        after.least() <= after.max_micros,
        after.consistent(),
{
}

impl Default for StageLatencyTracker {
    fn default() -> (t: StageLatencyTracker)
        ensures
            t.count == 0,
            t.total_micros == 0,
            t.min_micros == u64::MAX,
            t.max_micros == 0,
    {
        StageLatencyTracker::new()
    }
}

/// Search and cache counters with one latency tracker per retrieval stage.
pub struct RagMetricsTracker {
    pub total_searches: u64,
    pub cache_hits: u64,
    pub cache_misses: u64,
    pub search_latency: StageLatencyTracker,
    pub sparse_latency: StageLatencyTracker,
    pub dense_latency: StageLatencyTracker,
    pub fusion_latency: StageLatencyTracker,
    pub rerank_latency: StageLatencyTracker,
}

impl RagMetricsTracker {
    pub fn new() -> (t: RagMetricsTracker)
        ensures
            t.total_searches == 0,
            t.cache_hits == 0,
            t.cache_misses == 0,
            t.search_latency.nothing_recorded(),
            t.sparse_latency.nothing_recorded(),
            t.dense_latency.nothing_recorded(),
            t.fusion_latency.nothing_recorded(),
            t.rerank_latency.nothing_recorded(),
    {
        RagMetricsTracker {
            total_searches: 0,
            cache_hits: 0,
            cache_misses: 0,
            search_latency: StageLatencyTracker::new(),
            sparse_latency: StageLatencyTracker::new(),
            dense_latency: StageLatencyTracker::new(),
            fusion_latency: StageLatencyTracker::new(),
            rerank_latency: StageLatencyTracker::new(),
        }
    }

    /// Counts a cache lookup as a hit or a miss.
    pub fn record_cache_lookup(&mut self, hit: bool)
        ensures
            final(self).cache_hits == (if hit { wrap_add(old(self).cache_hits, 1) } else { old(self).cache_hits }),
            final(self).cache_misses == (if hit { old(self).cache_misses } else { wrap_add(old(self).cache_misses, 1) }),
            final(self).total_searches == old(self).total_searches,
    {
        if hit {
            self.cache_hits = self.cache_hits.wrapping_add(1);
        } else {
            self.cache_misses = self.cache_misses.wrapping_add(1);
        }
    }

    /// Counts a search.
    pub fn record_search(&mut self)
        ensures
            final(self).total_searches == wrap_add(old(self).total_searches, 1),
            final(self).cache_hits == old(self).cache_hits,
            final(self).cache_misses == old(self).cache_misses,
    {
        self.total_searches = self.total_searches.wrapping_add(1);
    }
}

/// One query of an evaluation: what was retrieved, in rank order, and what is relevant.
#[derive(Debug, Clone)]
pub struct QueryEvaluationSample {
    pub query: String,
    pub retrieved_ids: Vec<String>,
    pub ground_truth_ids: Vec<String>,
}

/// The integer measurements of one sample at cutoff `k`: the 0-based ranks of
/// the relevant documents among the first `k` retrieved, and the number of
/// distinct relevant documents.
#[derive(Debug, Clone)]
pub struct SampleCounts {
    pub relevant_ranks: Vec<usize>,
    pub relevant_total: usize,
}

/// The first occurrences of `ids`, in order.
pub open spec fn distinct_ids(ids: Seq<Seq<char>>) -> Seq<Seq<char>>
    decreases ids.len(),
{
    if ids.len() == 0 {
        Seq::empty()
    } else {
        let d = distinct_ids(ids.drop_last());
        if d.contains(ids.last()) { d } else { d.push(ids.last()) }
    }
}

/// Ranks `0..n` of `retrieved` whose id is relevant, ascending.
pub open spec fn relevant_ranks(retrieved: Seq<Seq<char>>, relevant: Seq<Seq<char>>, n: int) -> Seq<usize>
    decreases n,
{
    if n <= 0 {
        Seq::empty()
    } else {
        let r = relevant_ranks(retrieved, relevant, n - 1);
        if relevant.contains(retrieved[n - 1]) { r.push((n - 1) as usize) } else { r }
    }
}

/// Evaluates retrieval against ground truth.
pub struct RetrievalEvaluator;

impl RetrievalEvaluator {
    /// Ranks of relevant hits among the first `k` retrieved ids, and the count
    /// of distinct relevant ids; the rate measures are computed from these.
    pub fn count_sample(sample: &QueryEvaluationSample, k: usize) -> (r: SampleCounts)
        ensures
            r.relevant_ranks@ == relevant_ranks(string_views(sample.retrieved_ids@), string_views(sample.ground_truth_ids@),
                if k < sample.retrieved_ids@.len() { k as int } else { sample.retrieved_ids@.len() as int }),
            r.relevant_total == distinct_ids(string_views(sample.ground_truth_ids@)).len(),
    {
        let ghost gt = string_views(sample.ground_truth_ids@);
        let ghost rv = string_views(sample.retrieved_ids@);
        let mut distinct: Vec<String> = Vec::new();
        let mut i: usize = 0;
        while i < sample.ground_truth_ids.len()
            invariant
                i <= sample.ground_truth_ids@.len(),
                gt == string_views(sample.ground_truth_ids@),
                string_views(distinct@) == distinct_ids(gt.take(i as int)),
            decreases sample.ground_truth_ids@.len() - i,
        {
            let id = sample.ground_truth_ids[i].as_str();
            proof {
                assert(gt.take(i + 1).drop_last() =~= gt.take(i as int));
                assert(gt.take(i + 1).last() == id@);
            }
            let seen = contains_id(&distinct, id);
            if !seen {
                let ghost before = distinct@;
                distinct.push(String::from_str(id));
                assert(string_views(distinct@) =~= string_views(before).push(id@));
            }
            i = i + 1;
        }
        assert(gt.take(gt.len() as int) =~= gt);
        let n = if k < sample.retrieved_ids.len() { k } else { sample.retrieved_ids.len() };
        let mut ranks: Vec<usize> = Vec::new();
        let mut j: usize = 0;
        while j < n
            invariant
                j <= n,
                n <= sample.retrieved_ids@.len(),
                rv == string_views(sample.retrieved_ids@),
                gt == string_views(sample.ground_truth_ids@),
                ranks@ == relevant_ranks(rv, gt, j as int),
            decreases n - j,
        {
            let id = sample.retrieved_ids[j].as_str();
            assert(rv[j as int] == id@);
            if contains_id(&sample.ground_truth_ids, id) {
                ranks.push(j);
            }
            j = j + 1;
        }
        proof {
            lemma_distinct_len(gt);
        }
        SampleCounts { relevant_ranks: ranks, relevant_total: distinct.len() }
    }
}

proof fn lemma_distinct_len(ids: Seq<Seq<char>>)
    ensures
        distinct_ids(ids).len() <= ids.len(),
    decreases ids.len(),
{
    if ids.len() > 0 {
        lemma_distinct_len(ids.drop_last());
    }
}

/// Whether `ids` holds a string with the characters of `id`.
pub fn contains_id(ids: &Vec<String>, id: &str) -> (r: bool)
    ensures
        r == string_views(ids@).contains(id@),
{
    let mut i: usize = 0;
    while i < ids.len()
        invariant
            i <= ids@.len(),
            forall|j: int| 0 <= j < i ==> ids@[j]@ != id@,
        decreases ids@.len() - i,
    {
        if str_eq(ids[i].as_str(), id) {
            assert(string_views(ids@)[i as int] == id@);
            return true;
        }
        i = i + 1;
    }
    proof {
        if string_views(ids@).contains(id@) {
            let j = choose|j: int| 0 <= j < string_views(ids@).len() && string_views(ids@)[j] == id@;
            assert(ids@[j]@ == id@);
        }
    }
    false
}

} // verus!
