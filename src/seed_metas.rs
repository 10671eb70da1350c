//! The seed metadata table: one record per generated seed, with the time it
//! was generated and the cumulative branch coverage once it is measured.
use vstd::prelude::*;

verus! {

/// One generated seed.
pub struct SeedMeta {
    pub seed_path: String,
    /// Milliseconds between the start of generation and this seed.
    pub duration_since_start_ms: u64,
    /// Cumulative branch coverage, in hundredths of a percent, once measured.
    pub cumulative_branch_coverage: Option<u32>,
}

/// Why a record could not be added.
#[derive(Debug, PartialEq, Eq, Structural)]
pub enum MetaError {
    /// The table was loaded, not started: it has no start time.
    NoStartTime,
}

/// The metadata of the seeds of one generation session.
pub struct SeedMetas {
    /// When generation started, in milliseconds on the caller's clock.
    pub start_time_ms: Option<u64>,
    pub seed_metas: Vec<SeedMeta>,
}

/// Record `a` is processed before record `b`: it is older, or as old and
/// listed first.
pub open spec fn earlier(keys: Seq<u64>, a: usize, b: usize) -> bool {
    keys[a as int] < keys[b as int] || (keys[a as int] == keys[b as int] && a < b)
}

/// The order of the records by age, oldest first, ties in table order.
pub fn order_by_age(keys: &Vec<u64>) -> (r: Vec<usize>)
    ensures
        r@.len() == keys@.len(),
        forall|i: int, j: int| 0 <= i < j < r@.len() ==> earlier(keys@, #[trigger] r@[i], #[trigger] r@[j]),
        forall|i: usize| i < keys@.len() <==> r@.contains(i),
{
    let n = keys.len();
    let mut order: Vec<usize> = Vec::new();
    let mut i: usize = 0;
    while i < n
        invariant
            n == keys@.len(),
            i <= n,
            order@.len() == i,
            forall|a: int, b: int| 0 <= a < b < order@.len() ==> earlier(keys@, #[trigger] order@[a], #[trigger] order@[b]),
            forall|x: usize| x < i <==> order@.contains(x),
            forall|a: int| 0 <= a < order@.len() ==> #[trigger] order@[a] < i,
        decreases n - i,
    {
        let key = keys[i];
        let mut p: usize = 0;
        while p < order.len() && keys[order[p]] <= key
            invariant
                n == keys@.len(),
                i < n,
                key == keys@[i as int],
                p <= order@.len(),
                forall|x: usize| x < i <==> order@.contains(x),
                forall|a: int| 0 <= a < order@.len() ==> #[trigger] order@[a] < i,
                forall|a: int| 0 <= a < p ==> keys@[#[trigger] order@[a] as int] <= key,
            decreases order@.len() - p,
        {
            p += 1;
        }
        let ghost o0 = order@;
        order.insert(p, i);
        assert(order@ =~= o0.insert(p as int, i));
        assert forall|a: int, b: int| 0 <= a < b < order@.len() implies earlier(keys@, #[trigger] order@[a], #[trigger] order@[b]) by {
            if b < p {
                assert(earlier(keys@, o0[a], o0[b]));
            } else if b == p {
                assert(keys@[o0[a] as int] <= key);
            } else if a == p {
                assert(keys@[o0[p as int] as int] > key);
                if b - 1 > p {
                    assert(earlier(keys@, o0[p as int], o0[b - 1]));
                }
            } else if a < p {
                assert(earlier(keys@, o0[a], o0[b - 1]));
            } else {
                assert(earlier(keys@, o0[a - 1], o0[b - 1]));
            }
        }
        assert forall|a: int| 0 <= a < order@.len() implies #[trigger] order@[a] < i + 1 by {
            if a < p {
                assert(order@[a] == o0[a]);
            } else if a > p {
                assert(order@[a] == o0[a - 1]);
            }
        }
        assert forall|x: usize| x < i + 1 <==> order@.contains(x) by {
            if x < i {
                assert(o0.contains(x));
                let k = choose|k: int| 0 <= k < o0.len() && o0[k] == x;
                if k < p {
                    assert(order@[k] == x);
                } else {
                    assert(order@[k + 1] == x);
                }
            } else if x == i {
                assert(order@[p as int] == x);
            }
            if order@.contains(x) {
                let k = choose|k: int| 0 <= k < order@.len() && order@[k] == x;
                if k < p {
                    assert(o0.contains(x));
                } else if k > p {
                    assert(o0[k - 1] == x);
                    assert(o0.contains(x));
                }
            }
        }
        i += 1;
    }
    order
}

/// `new` holds the records of `old` in the order `perm`, which lists every
/// record once, oldest first, ties in table order.
pub open spec fn reordered_by_age(old: Seq<SeedMeta>, new: Seq<SeedMeta>, perm: Seq<usize>) -> bool {
    &&& perm.len() == old.len()
    &&& forall|i: usize| i < old.len() <==> perm.contains(i)
    &&& forall|i: int, j: int| 0 <= i < j < perm.len() ==> earlier(ages(old), #[trigger] perm[i], #[trigger] perm[j])
    &&& new.len() == perm.len()
    &&& forall|k: int| 0 <= k < perm.len() ==> {
        let m = #[trigger] new[k];
        let o = old[perm[k] as int];
        m.seed_path@ == o.seed_path@ && m.duration_since_start_ms == o.duration_since_start_ms
            && m.cumulative_branch_coverage == o.cumulative_branch_coverage
    }
}

/// The ages of the records.
pub open spec fn ages(s: Seq<SeedMeta>) -> Seq<u64> {
    s.map_values(|m: SeedMeta| m.duration_since_start_ms)
}

/// Copy of a record.
fn copy_meta(m: &SeedMeta) -> (r: SeedMeta)
    ensures
        r.seed_path@ == m.seed_path@,
        r.duration_since_start_ms == m.duration_since_start_ms,
        r.cumulative_branch_coverage == m.cumulative_branch_coverage,
{
    SeedMeta {
        seed_path: m.seed_path.clone(),
        duration_since_start_ms: m.duration_since_start_ms,
        cumulative_branch_coverage: m.cumulative_branch_coverage,
    }
}

impl SeedMetas {
    /// An empty table of a session that started at `start_time_ms`.
    pub fn new(start_time_ms: u64) -> (r: SeedMetas)
        ensures
            r.start_time_ms == Some(start_time_ms),
            r.seed_metas@.len() == 0,
    {
        SeedMetas { start_time_ms: Some(start_time_ms), seed_metas: Vec::new() }
    }

    /// Records a seed generated at `generation_time_ms`; its age is the time
    /// since the start (0 for a time before it).
    pub fn add(&mut self, seed_path: &str, generation_time_ms: u64, branch_coverage: Option<u32>) -> (r: Result<(), MetaError>)
        ensures
            r is Err <==> old(self).start_time_ms is None,
            r is Err ==> final(self).seed_metas@ == old(self).seed_metas@,
            final(self).start_time_ms == old(self).start_time_ms,
            r is Ok ==> {
                let m = final(self).seed_metas@.last();
                &&& final(self).seed_metas@.len() == old(self).seed_metas@.len() + 1
                &&& final(self).seed_metas@.drop_last() == old(self).seed_metas@
                &&& m.seed_path@ == seed_path@
                &&& m.cumulative_branch_coverage == branch_coverage
                &&& m.duration_since_start_ms == if generation_time_ms >= old(self).start_time_ms->0 {
                    (generation_time_ms - old(self).start_time_ms->0) as u64
                } else {
                    0
                }
            },
    {
        match self.start_time_ms {
            None => Err(MetaError::NoStartTime),
            Some(start) => {
                let age = if generation_time_ms >= start { generation_time_ms - start } else { 0 };
                let ghost before = self.seed_metas@;
                self.seed_metas.push(SeedMeta {
                    seed_path: seed_path.to_string(),
                    duration_since_start_ms: age,
                    cumulative_branch_coverage: branch_coverage,
                });
                assert(self.seed_metas@.drop_last() =~= before);
                Ok(())
            },
        }
    }

    /// Number of records.
    pub fn len(&self) -> (r: usize)
        ensures
            r == self.seed_metas@.len(),
    {
        self.seed_metas.len()
    }

    /// Puts the records in chronological order, oldest first; records of the
    /// same age keep their order.
    pub fn sort_chronologically(&mut self)
        ensures
            final(self).start_time_ms == old(self).start_time_ms,
            exists|perm: Seq<usize>| #[trigger] reordered_by_age(old(self).seed_metas@, final(self).seed_metas@, perm),
    {
        let ghost s0 = self.seed_metas@;
        let mut keys: Vec<u64> = Vec::new();
        let mut i: usize = 0;
        while i < self.seed_metas.len()
            invariant
                self.seed_metas@ == s0,
                i <= s0.len(),
                keys@ == ages(s0).subrange(0, i as int),
            decreases s0.len() - i,
        {
            keys.push(self.seed_metas[i].duration_since_start_ms);
            assert(keys@ =~= ages(s0).subrange(0, i + 1));
            i += 1;
        }
        assert(keys@ =~= ages(s0));
        let order = order_by_age(&keys);
        let mut sorted: Vec<SeedMeta> = Vec::new();
        let mut k: usize = 0;
        while k < order.len()
            invariant
                self.seed_metas@ == s0,
                keys@ == ages(s0),
                order@.len() == s0.len(),
                forall|x: usize| x < s0.len() <==> order@.contains(x),
                k <= order@.len(),
                sorted@.len() == k,
                forall|j: int| 0 <= j < k ==> {
                    let m = #[trigger] sorted@[j];
                    let o = s0[order@[j] as int];
                    m.seed_path@ == o.seed_path@ && m.duration_since_start_ms == o.duration_since_start_ms
                        && m.cumulative_branch_coverage == o.cumulative_branch_coverage
                },
            decreases order@.len() - k,
        {
            assert(order@.contains(order@[k as int]));
            sorted.push(copy_meta(&self.seed_metas[order[k]]));
            k += 1;
        }
        self.seed_metas = sorted;
        assert(reordered_by_age(s0, self.seed_metas@, order@));
    }

    /// The records `start..end` of each batch of `batch_size`, in order; the
    /// last batch may be shorter.
    pub fn batch_ranges(&self, batch_size: usize) -> (r: Vec<(usize, usize)>)
        requires
            batch_size > 0,
        ensures
            forall|b: int| 0 <= b < r@.len() ==> {
                let (s, e) = #[trigger] r@[b];
                &&& s == b * batch_size
                &&& e == if s + batch_size <= self.seed_metas@.len() { s + batch_size } else { self.seed_metas@.len() as int }
                &&& s < e
            },
            r@.len() * batch_size >= self.seed_metas@.len(),
            r@.len() == 0 || (r@.len() - 1) * batch_size < self.seed_metas@.len(),
    {
        let n = self.seed_metas.len();
        let mut out: Vec<(usize, usize)> = Vec::new();
        let mut s: usize = 0;
        assert(out@.len() * batch_size == 0) by (nonlinear_arith)
            requires
                out@.len() == 0,
        ;
        while s < n
            invariant
                n == self.seed_metas@.len(),
                batch_size > 0,
                s <= n,
                s < n ==> s == out@.len() * batch_size,
                out@.len() * batch_size >= s,
                out@.len() == 0 || (out@.len() - 1) * batch_size < n,
                forall|b: int| 0 <= b < out@.len() ==> {
                    let (bs, be) = #[trigger] out@[b];
                    &&& bs == b * batch_size
                    &&& be == if bs + batch_size <= n { bs + batch_size } else { n as int }
                    &&& bs < be
                },
            decreases n - s,
        {
            let e = if n - s >= batch_size { s + batch_size } else { n };
            let ghost b = out@.len();
            out.push((s, e));
            proof {
                assert((b + 1) * batch_size == b * batch_size + batch_size) by (nonlinear_arith);
            }
            s = e;
        }
        out
    }

    /// Records the cumulative coverage `percent` on every record of
    /// `start..end`.
    pub fn record_batch_coverage(&mut self, start: usize, end: usize, percent: u32)
        requires
            start <= end <= old(self).seed_metas@.len(),
        ensures
            final(self).start_time_ms == old(self).start_time_ms,
            final(self).seed_metas@.len() == old(self).seed_metas@.len(),
            forall|k: int| 0 <= k < old(self).seed_metas@.len() ==> {
                let m = #[trigger] final(self).seed_metas@[k];
                let o = old(self).seed_metas@[k];
                &&& m.seed_path == o.seed_path
                &&& m.duration_since_start_ms == o.duration_since_start_ms
                &&& m.cumulative_branch_coverage == if start <= k < end { Some(percent) } else { o.cumulative_branch_coverage }
            },
    {
        let mut k: usize = start;
        while k < end
            invariant
                start <= k <= end,
                end <= old(self).seed_metas@.len(),
                self.start_time_ms == old(self).start_time_ms,
                self.seed_metas@.len() == old(self).seed_metas@.len(),
                forall|j: int| 0 <= j < old(self).seed_metas@.len() ==> {
                    let m = #[trigger] self.seed_metas@[j];
                    let o = old(self).seed_metas@[j];
                    &&& m.seed_path == o.seed_path
                    &&& m.duration_since_start_ms == o.duration_since_start_ms
                    &&& m.cumulative_branch_coverage == if start <= j < k { Some(percent) } else { o.cumulative_branch_coverage }
                },
            decreases end - k,
        {
            self.seed_metas[k].cumulative_branch_coverage = Some(percent);
            k += 1;
        }
    }
}

} // verus!
