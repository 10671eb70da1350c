//! The decisions of the outer generation loop: when it has converged, when
//! it is stuck, and when to recheck seeds.
use vstd::prelude::*;

verus! {

/// The state the outer loop decides on.
pub struct Fuzzer {
    /// Rounds in a row without new coverage.
    pub quiet_round: usize,
    /// Quiet rounds after which generation has converged.
    pub fuzz_converge_round: usize,
    /// Whether seeds are rechecked during the loop.
    pub recheck: bool,
}

impl Fuzzer {
    /// A loop with no quiet round yet.
    pub fn new(fuzz_converge_round: usize, recheck: bool) -> (r: Fuzzer)
        ensures
            r.quiet_round == 0,
            r.fuzz_converge_round == fuzz_converge_round,
            r.recheck == recheck,
    {
        Fuzzer { quiet_round: 0, fuzz_converge_round, recheck }
    }

    /// Generation has converged: enough rounds in a row brought nothing new.
    pub fn is_converge(&self) -> (r: bool)
        ensures
            r == (self.quiet_round >= self.fuzz_converge_round),
    {
        self.quiet_round >= self.fuzz_converge_round
    }

    /// A round that produced no program is stuck.
    pub fn is_stuck(&self, len: usize) -> (r: bool)
        ensures
            r == (len == 0),
    {
        len == 0
    }

    /// Seeds are rechecked once half of the converging rounds are quiet, if
    /// rechecking is on.
    pub fn should_recheck(&self) -> (r: bool)
        ensures
            r == (self.recheck && self.quiet_round >= self.fuzz_converge_round / 2),
    {
        self.quiet_round >= self.fuzz_converge_round / 2 && self.recheck
    }

    /// Counts the round: a round with new coverage resets the count.
    pub fn end_round(&mut self, new_coverage: bool)
        ensures
            new_coverage ==> final(self).quiet_round == 0,
            !new_coverage ==> final(self).quiet_round == if old(self).quiet_round < usize::MAX { old(self).quiet_round + 1 } else { old(self).quiet_round as int },
            final(self).fuzz_converge_round == old(self).fuzz_converge_round,
            final(self).recheck == old(self).recheck,
    {
        if new_coverage {
            self.quiet_round = 0;
        } else if self.quiet_round < usize::MAX {
            self.quiet_round = self.quiet_round + 1;
        }
    }
}


/// A call triple as three call names.
pub type Triple = (Seq<char>, Seq<char>, Seq<char>);

/// The views of a list of call triples.
pub open spec fn triple_views(v: Seq<(String, String, String)>) -> Seq<Triple> {
    v.map_values(|t: (String, String, String)| (t.0@, t.1@, t.2@))
}

/// The call triples discovered so far, each once.
pub struct DiscoveredTriples {
    pub triples: Vec<(String, String, String)>,
}

/// Whether `t` is among `v`.
fn contains_triple(v: &Vec<(String, String, String)>, t: &(String, String, String)) -> (r: bool)
    ensures
        r == triple_views(v@).contains((t.0@, t.1@, t.2@)),
{
    let mut i: usize = 0;
    while i < v.len()
        invariant
            i <= v@.len(),
            forall|j: int| 0 <= j < i ==> triple_views(v@)[j] != (t.0@, t.1@, t.2@),
        decreases v@.len() - i,
    {
        if v[i].0 == t.0 && v[i].1 == t.1 && v[i].2 == t.2 {
            assert(triple_views(v@)[i as int] == (t.0@, t.1@, t.2@));
            return true;
        }
        i += 1;
    }
    false
}

impl DiscoveredTriples {
    /// No triple is listed twice.
    pub open spec fn well_formed(&self) -> bool {
        triple_views(self.triples@).no_duplicates()
    }

    /// Nothing discovered yet.
    pub fn new() -> (r: DiscoveredTriples)
        ensures
            r.well_formed(),
            r.triples@.len() == 0,
    {
        DiscoveredTriples { triples: Vec::new() }
    }

    /// Adds the triples of a round and returns those that were new, each
    /// once, in the order they first came.
    pub fn record(&mut self, round: &Vec<(String, String, String)>) -> (r: Vec<(String, String, String)>)
        requires
            old(self).well_formed(),
        ensures
            final(self).well_formed(),
            triple_views(final(self).triples@) == triple_views(old(self).triples@) + triple_views(r@),
            triple_views(r@).no_duplicates(),
            forall|t: Triple| #[trigger] triple_views(r@).contains(t) <==> (triple_views(round@).contains(t)
                && !triple_views(old(self).triples@).contains(t)),
    {
        let ghost old_v = triple_views(self.triples@);
        let mut fresh: Vec<(String, String, String)> = Vec::new();
        let mut i: usize = 0;
        while i < round.len()
            invariant
                i <= round@.len(),
                triple_views(self.triples@) == old_v + triple_views(fresh@),
                old_v.no_duplicates(),
                triple_views(self.triples@).no_duplicates(),
                triple_views(fresh@).no_duplicates(),
                forall|t: Triple| #[trigger] triple_views(fresh@).contains(t) <==> (triple_views(round@).subrange(0, i as int).contains(t)
                    && !old_v.contains(t)),
            decreases round@.len() - i,
        {
            let t = &round[i];
            let ghost tv = (t.0@, t.1@, t.2@);
            let ghost all0 = triple_views(self.triples@);
            let ghost f0 = triple_views(fresh@);
            let ghost pre = triple_views(round@).subrange(0, i as int);
            let ghost post = triple_views(round@).subrange(0, i + 1);
            assert(post =~= pre.push(tv));
            if !contains_triple(&self.triples, t) {
                proof {
                    if f0.contains(tv) {
                        let k = choose|k: int| 0 <= k < f0.len() && f0[k] == tv;
                        assert(all0[old_v.len() + k] == tv);
                    }
                    if old_v.contains(tv) {
                        let k = choose|k: int| 0 <= k < old_v.len() && old_v[k] == tv;
                        assert(all0[k] == tv);
                    }
                }
                self.triples.push((t.0.clone(), t.1.clone(), t.2.clone()));
                fresh.push((t.0.clone(), t.1.clone(), t.2.clone()));
                assert(triple_views(self.triples@) =~= all0.push(tv));
                assert(triple_views(fresh@) =~= f0.push(tv));
                assert(triple_views(self.triples@) =~= old_v + triple_views(fresh@));
                assert(!f0.contains(tv));
                assert(!old_v.contains(tv));
            } else {
                assert(old_v.contains(tv) || f0.contains(tv)) by {
                    if !old_v.contains(tv) {
                        let k = choose|k: int| 0 <= k < all0.len() && all0[k] == tv;
                        assert(k >= old_v.len());
                        assert(f0[k - old_v.len()] == tv);
                    }
                }
                assert(triple_views(fresh@) == f0);
            }
            assert forall|u: Triple| triple_views(fresh@).contains(u) <==> (post.contains(u) && !old_v.contains(u)) by {
                assert(f0.contains(u) == (pre.contains(u) && !old_v.contains(u)));
                if u == tv {
                    assert(post[pre.len() as int] == tv);
                    if triple_views(fresh@) != f0 {
                        assert(triple_views(fresh@)[f0.len() as int] == tv);
                    }
                }
                if post.contains(u) {
                    let k = choose|k: int| 0 <= k < post.len() && post[k] == u;
                    if k < pre.len() {
                        assert(pre[k] == u);
                    }
                }
                if pre.contains(u) {
                    let k = choose|k: int| 0 <= k < pre.len() && pre[k] == u;
                    assert(post[k] == u);
                }
                if triple_views(fresh@).contains(u) && u != tv {
                    let k = choose|k: int| 0 <= k < triple_views(fresh@).len() && triple_views(fresh@)[k] == u;
                    if k < f0.len() {
                        assert(f0[k] == u);
                    }
                }
                if f0.contains(u) {
                    let k = choose|k: int| 0 <= k < f0.len() && f0[k] == u;
                    assert(triple_views(fresh@)[k] == u);
                }
            }
            i += 1;
        }
        assert(triple_views(round@).subrange(0, round@.len() as int) =~= triple_views(round@));
        assert forall|t: Triple| triple_views(fresh@).contains(t) <==> (triple_views(round@).contains(t)
            && !old_v.contains(t)) by {
            assert(triple_views(round@).subrange(0, i as int) == triple_views(round@));
            assert(triple_views(fresh@).contains(t) == (triple_views(round@).subrange(0, i as int).contains(t) && !old_v.contains(t)));
        }
        fresh
    }
}

impl Fuzzer {
    /// Ends a round of pair discovery: the round counts as productive when
    /// it discovered at least `num_new_pairs` new call triples, which resets
    /// the quiet rounds; an unproductive round that produced programs adds a
    /// quiet round. Returns whether the round was productive.
    pub fn end_discovery_round(&mut self, new_triples: usize, num_new_pairs: usize, stuck: bool) -> (r: bool)
        ensures
            r == (new_triples >= num_new_pairs),
            r ==> final(self).quiet_round == 0,
            !r && stuck ==> final(self).quiet_round == old(self).quiet_round,
            !r && !stuck ==> final(self).quiet_round == if old(self).quiet_round < usize::MAX { old(self).quiet_round + 1 } else { old(self).quiet_round as int },
            final(self).fuzz_converge_round == old(self).fuzz_converge_round,
            final(self).recheck == old(self).recheck,
    {
        let productive = new_triples >= num_new_pairs;
        if productive {
            self.quiet_round = 0;
        } else if !stuck && self.quiet_round < usize::MAX {
            self.quiet_round = self.quiet_round + 1;
        }
        productive
    }
}
} // verus!
