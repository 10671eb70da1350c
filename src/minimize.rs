//! Corpus minimisation: keep the smallest greedy subset of programs that
//! still covers every branch (or every pair of consecutive API calls) that
//! the whole corpus covers.
use vstd::prelude::*;

use crate::text::views;

verus! {

/// Everything that the programs `idxs` cover.
pub open spec fn union_of(sets: Seq<Seq<usize>>, idxs: Seq<usize>) -> Set<usize> {
    Set::new(|e: usize| exists|x: int| 0 <= x < idxs.len() && #[trigger] sets[idxs[x] as int].contains(e))
}

/// Program `i` covers something that the programs `prev` do not.
pub open spec fn adds_new(sets: Seq<Seq<usize>>, prev: Seq<usize>, i: usize) -> bool {
    exists|e: usize| sets[i as int].contains(e) && !union_of(sets, prev).contains(e)
}

/// The programs kept by walking `order` and keeping each program that covers
/// something the programs kept before it do not.
pub open spec fn kept(sets: Seq<Seq<usize>>, order: Seq<usize>) -> Seq<usize>
    decreases order.len(),
{
    if order.len() == 0 {
        seq![]
    } else {
        let prev = kept(sets, order.drop_last());
        if adds_new(sets, prev, order.last()) {
            prev.push(order.last())
        } else {
            prev
        }
    }
}

/// Program `a` is walked before program `b`: it covers more, or as much and
/// comes first.
pub open spec fn ranked_before(sets: Seq<Seq<usize>>, a: usize, b: usize) -> bool {
    sets[a as int].len() > sets[b as int].len() || (sets[a as int].len() == sets[b as int].len() && a < b)
}

/// The views of a list of coverage lists.
pub open spec fn sets_view(v: Seq<Vec<usize>>) -> Seq<Seq<usize>> {
    v.map_values(|s: Vec<usize>| s@)
}

/// The greedy walk keeps what the whole walk covers.
pub proof fn lemma_kept_covers(sets: Seq<Seq<usize>>, order: Seq<usize>)
    ensures
        union_of(sets, kept(sets, order)) == union_of(sets, order),
        kept(sets, order).len() <= order.len(),
        forall|x: int| 0 <= x < kept(sets, order).len() ==> order.contains(#[trigger] kept(sets, order)[x]),
    decreases order.len(),
{
    if order.len() > 0 {
        let o0 = order.drop_last();
        lemma_kept_covers(sets, o0);
        let prev = kept(sets, o0);
        let i = order.last();
        let k = kept(sets, order);
        assert forall|e: usize| union_of(sets, k).contains(e) <==> union_of(sets, order).contains(e) by {
            if union_of(sets, k).contains(e) {
                let x = choose|x: int| 0 <= x < k.len() && #[trigger] sets[k[x] as int].contains(e);
                if x < prev.len() {
                    assert(union_of(sets, prev).contains(e));
                    let y = choose|y: int| 0 <= y < o0.len() && #[trigger] sets[o0[y] as int].contains(e);
                    assert(order[y] == o0[y]);
                } else {
                    assert(sets[order[order.len() - 1] as int].contains(e));
                }
            }
            if union_of(sets, order).contains(e) {
                let y = choose|y: int| 0 <= y < order.len() && #[trigger] sets[order[y] as int].contains(e);
                if y < o0.len() {
                    assert(sets[o0[y] as int].contains(e));
                    assert(union_of(sets, o0).contains(e));
                    assert(union_of(sets, prev).contains(e));
                    let x = choose|x: int| 0 <= x < prev.len() && #[trigger] sets[prev[x] as int].contains(e);
                    assert(k[x] == prev[x]);
                } else if adds_new(sets, prev, i) {
                    assert(k[prev.len() as int] == i);
                } else {
                    assert(union_of(sets, prev).contains(e));
                }
            }
        }
        assert(union_of(sets, k) =~= union_of(sets, order));
        assert forall|x: int| 0 <= x < k.len() implies order.contains(#[trigger] k[x]) by {
            if x < prev.len() {
                assert(o0.contains(prev[x]));
                let y = choose|y: int| 0 <= y < o0.len() && o0[y] == prev[x];
                assert(order[y] == prev[x]);
            } else {
                assert(order[order.len() - 1] == k[x]);
            }
        }
    }
}

/// Each program the walk keeps covers something that the programs kept
/// before it do not; so none is kept twice.
pub proof fn lemma_kept_adds_new(sets: Seq<Seq<usize>>, order: Seq<usize>, x: int)
    requires
        0 <= x < kept(sets, order).len(),
    ensures
        adds_new(sets, kept(sets, order).subrange(0, x), kept(sets, order)[x]),
        forall|y: int| 0 <= y < x ==> kept(sets, order)[y] != kept(sets, order)[x],
    decreases order.len(),
{
    let k = kept(sets, order);
    let o0 = order.drop_last();
    let prev = kept(sets, o0);
    if x < prev.len() {
        lemma_kept_adds_new(sets, o0, x);
        assert(k.subrange(0, x) =~= prev.subrange(0, x));
        assert(k[x] == prev[x]);
        assert forall|y: int| 0 <= y < x implies k[y] != k[x] by {
            assert(k[y] == prev[y]);
        }
    } else {
        assert(k.subrange(0, x) =~= prev);
        let pre = k.subrange(0, x);
        assert forall|y: int| 0 <= y < x implies k[y] != k[x] by {
            if k[y] == k[x] {
                let e = choose|e: usize| sets[k[x] as int].contains(e) && !union_of(sets, pre).contains(e);
                assert(pre[y] == k[y]);
                assert(union_of(sets, pre).contains(e));
            }
        }
    }
}

/// Position of `e` in `v`, if it is there.
fn index_of(v: &Vec<usize>, e: usize) -> (r: bool)
    ensures
        r == v@.contains(e),
{
    let mut i: usize = 0;
    while i < v.len()
        invariant
            i <= v@.len(),
            forall|j: int| 0 <= j < i ==> v@[j] != e,
        decreases v@.len() - i,
    {
        if v[i] == e {
            return true;
        }
        i += 1;
    }
    false
}

/// The order in which programs are walked: every program, those that cover
/// more first, ties in their own order.
pub fn coverage_order(sets: &Vec<Vec<usize>>) -> (r: Vec<usize>)
    ensures
        r@.len() == sets@.len(),
        forall|i: int, j: int| 0 <= i < j < r@.len() ==> ranked_before(sets_view(sets@), #[trigger] r@[i], #[trigger] r@[j]),
        forall|i: usize| i < sets@.len() <==> r@.contains(i),
{
    let ghost sv = sets_view(sets@);
    let n = sets.len();
    let mut order: Vec<usize> = Vec::new();
    let mut i: usize = 0;
    while i < n
        invariant
            n == sets@.len(),
            sv == sets_view(sets@),
            i <= n,
            order@.len() == i,
            forall|a: int, b: int| 0 <= a < b < order@.len() ==> ranked_before(sv, #[trigger] order@[a], #[trigger] order@[b]),
            forall|x: usize| x < i <==> order@.contains(x),
            forall|a: int| 0 <= a < order@.len() ==> #[trigger] order@[a] < i,
        decreases n - i,
    {
        let len_i = sets[i].len();
        let mut p: usize = 0;
        while p < order.len() && sets[order[p]].len() >= len_i
            invariant
                n == sets@.len(),
                sv == sets_view(sets@),
                i < n,
                len_i == sv[i as int].len(),
                p <= order@.len(),
                forall|x: usize| x < i <==> order@.contains(x),
                forall|a: int| 0 <= a < order@.len() ==> #[trigger] order@[a] < i,
                forall|a: int| 0 <= a < p ==> sv[#[trigger] order@[a] as int].len() >= len_i,
            decreases order@.len() - p,
        {
            assert(order@.contains(order@[p as int]));
            p += 1;
        }
        let ghost o0 = order@;
        assert forall|a: int| 0 <= a < o0.len() implies #[trigger] o0[a] < i by {
            assert(o0.contains(o0[a]));
        }
        order.insert(p, i);
        assert(order@ =~= o0.insert(p as int, i));
        assert forall|a: int, b: int| 0 <= a < b < order@.len() implies ranked_before(sv, #[trigger] order@[a], #[trigger] order@[b]) by {
            if b < p {
                assert(ranked_before(sv, o0[a], o0[b]));
            } else if b == p {
                assert(sv[o0[a] as int].len() >= len_i);
            } else if a == p {
                assert(sv[o0[p as int] as int].len() < len_i);
                if b - 1 > p {
                    assert(ranked_before(sv, o0[p as int], o0[b - 1]));
                }
            } else if a < p {
                assert(ranked_before(sv, o0[a], o0[b - 1]));
            } else {
                assert(ranked_before(sv, o0[a - 1], o0[b - 1]));
            }
        }
        assert forall|a: int| 0 <= a < order@.len() implies #[trigger] order@[a] < i + 1 by {
            if a < p {
                assert(order@[a] == o0[a]);
            } else if a > p {
                assert(order@[a] == o0[a - 1]);
            }
        }
        assert forall|x: usize| x < i + 1 <==> order@.contains(x) by {
            if x < i {
                assert(o0.contains(x));
                let k = choose|k: int| 0 <= k < o0.len() && o0[k] == x;
                if k < p {
                    assert(order@[k] == x);
                } else {
                    assert(order@[k + 1] == x);
                }
            } else if x == i {
                assert(order@[p as int] == x);
            }
            if order@.contains(x) {
                let k = choose|k: int| 0 <= k < order@.len() && order@[k] == x;
                if k < p {
                    assert(o0.contains(x));
                } else if k > p {
                    assert(o0[k - 1] == x);
                    assert(o0.contains(x));
                }
            }
        }
        i += 1;
    }
    order
}

/// Walks the programs in `order` and keeps each one that covers something
/// the programs kept before it do not.
pub fn select_covering(sets: &Vec<Vec<usize>>, order: &Vec<usize>) -> (r: Vec<usize>)
    requires
        forall|x: int| 0 <= x < order@.len() ==> #[trigger] order@[x] < sets@.len(),
    ensures
        r@ == kept(sets_view(sets@), order@),
{
    let ghost sv = sets_view(sets@);
    let mut covered: Vec<usize> = Vec::new();
    let mut out: Vec<usize> = Vec::new();
    let mut k: usize = 0;
    while k < order.len()
        invariant
            sv == sets_view(sets@),
            forall|x: int| 0 <= x < order@.len() ==> #[trigger] order@[x] < sets@.len(),
            k <= order@.len(),
            out@ == kept(sv, order@.subrange(0, k as int)),
            forall|e: usize| covered@.contains(e) <==> union_of(sv, out@).contains(e),
        decreases order@.len() - k,
    {
        let i = order[k];
        let set = &sets[i];
        assert(set@ == sv[i as int]);
        let mut fresh = false;
        let mut j: usize = 0;
        while j < set.len()
            invariant
                j <= set@.len(),
                fresh ==> exists|e: usize| set@.contains(e) && !covered@.contains(e),
                !fresh ==> forall|x: int| 0 <= x < j ==> covered@.contains(#[trigger] set@[x]),
            decreases set@.len() - j,
        {
            if !index_of(&covered, set[j]) {
                assert(set@.contains(set@[j as int]));
                fresh = true;
            }
            j += 1;
        }
        let ghost prefix = order@.subrange(0, k + 1);
        assert(prefix.drop_last() =~= order@.subrange(0, k as int));
        assert(prefix.last() == i);
        let ghost o0 = out@;
        assert(fresh == adds_new(sv, o0, i)) by {
            if !fresh {
                assert forall|e: usize| sv[i as int].contains(e) implies union_of(sv, o0).contains(e) by {
                    let x = choose|x: int| 0 <= x < set@.len() && set@[x] == e;
                    assert(covered@.contains(set@[x]));
                }
            }
        }
        if fresh {
            out.push(i);
            let mut j: usize = 0;
            while j < set.len()
                invariant
                    j <= set@.len(),
                    set@ == sv[i as int],
                    sv == sets_view(sets@),
                    out@ == o0.push(i),
                    forall|e: usize| #[trigger] covered@.contains(e) <==> (union_of(sv, o0).contains(e) || set@.subrange(0, j as int).contains(e)),
                decreases set@.len() - j,
            {
                let ghost c0 = covered@;
                if !index_of(&covered, set[j]) {
                    covered.push(set[j]);
                }
                assert forall|e: usize| covered@.contains(e) <==> (c0.contains(e) || e == set@[j as int]) by {
                    if c0.contains(e) {
                        let y = choose|y: int| 0 <= y < c0.len() && c0[y] == e;
                        assert(covered@[y] == e);
                    }
                    if e == set@[j as int] && !c0.contains(e) {
                        assert(covered@[covered@.len() - 1] == e);
                    }
                    if covered@.contains(e) && !c0.contains(e) {
                        let y = choose|y: int| 0 <= y < covered@.len() && covered@[y] == e;
                        if y < c0.len() {
                            assert(c0[y] == e);
                        }
                    }
                }
                assert forall|e: usize| #[trigger] covered@.contains(e) <==> (union_of(sv, o0).contains(e) || set@.subrange(0, j + 1).contains(e)) by {
                    assert(c0.contains(e) <==> (union_of(sv, o0).contains(e) || set@.subrange(0, j as int).contains(e)));
                    if set@.subrange(0, j + 1).contains(e) {
                        let x = choose|x: int| 0 <= x < j + 1 && #[trigger] set@.subrange(0, j + 1)[x] == e;
                        if x < j {
                            assert(set@.subrange(0, j as int)[x] == e);
                        }
                    }
                    if set@.subrange(0, j as int).contains(e) {
                        let x = choose|x: int| 0 <= x < j && #[trigger] set@.subrange(0, j as int)[x] == e;
                        assert(set@.subrange(0, j + 1)[x] == e);
                    }
                    if e == set@[j as int] {
                        assert(set@.subrange(0, j + 1)[j as int] == e);
                    }
                }
                j += 1;
            }
            assert forall|e: usize| covered@.contains(e) <==> union_of(sv, out@).contains(e) by {
                if union_of(sv, out@).contains(e) {
                    let x = choose|x: int| 0 <= x < out@.len() && #[trigger] sv[out@[x] as int].contains(e);
                    if x < o0.len() {
                        assert(o0[x] == out@[x]);
                        assert(union_of(sv, o0).contains(e));
                    } else {
                        let y = choose|y: int| 0 <= y < set@.len() && set@[y] == e;
                        assert(set@.subrange(0, set@.len() as int)[y] == e);
                    }
                }
                if covered@.contains(e) {
                    if union_of(sv, o0).contains(e) {
                        let x = choose|x: int| 0 <= x < o0.len() && #[trigger] sv[o0[x] as int].contains(e);
                        assert(out@[x] == o0[x]);
                    } else {
                        let y = choose|y: int| 0 <= y < set@.len() && #[trigger] set@.subrange(0, set@.len() as int)[y] == e;
                        assert(set@[y] == e);
                        assert(sv[out@[o0.len() as int] as int].contains(e));
                    }
                }
            }
        }
        k += 1;
    }
    assert(order@.subrange(0, order@.len() as int) =~= order@);
    out
}

/// Branch-coverage minimisation: `coverage[i]` lists the branches program `i`
/// covers. Programs are walked from the one that covers the most, and each
/// is kept if it covers a branch that no program kept before it covers. The
/// kept programs cover every branch the corpus covers.
pub fn minimize(coverage: &Vec<Vec<usize>>) -> (r: Vec<usize>)
    ensures
        exists|order: Seq<usize>| {
            &&& order.len() == coverage@.len()
            &&& forall|i: int, j: int| 0 <= i < j < order.len() ==> ranked_before(sets_view(coverage@), #[trigger] order[i], #[trigger] order[j])
            &&& forall|i: usize| i < coverage@.len() <==> order.contains(i)
            &&& r@ == kept(sets_view(coverage@), order)
        },
        union_of(sets_view(coverage@), r@) == Set::new(|e: usize| exists|i: int| 0 <= i < coverage@.len() && #[trigger] coverage@[i]@.contains(e)),
        r@.len() <= coverage@.len(),
{
    let order = coverage_order(coverage);
    assert forall|x: int| 0 <= x < order@.len() implies #[trigger] order@[x] < coverage@.len() by {
        assert(order@.contains(order@[x]));
    }
    let r = select_covering(coverage, &order);
    proof {
        let sv = sets_view(coverage@);
        lemma_kept_covers(sv, order@);
        assert forall|e: usize| union_of(sv, order@).contains(e) <==> exists|i: int| 0 <= i < coverage@.len() && #[trigger] coverage@[i]@.contains(e) by {
            if union_of(sv, order@).contains(e) {
                let x = choose|x: int| 0 <= x < order@.len() && #[trigger] sv[order@[x] as int].contains(e);
                assert(coverage@[order@[x] as int]@.contains(e));
            }
            if exists|i: int| 0 <= i < coverage@.len() && #[trigger] coverage@[i]@.contains(e) {
                let i = choose|i: int| 0 <= i < coverage@.len() && #[trigger] coverage@[i]@.contains(e);
                assert(coverage@.len() == coverage.len());
                assert((i as usize) as int == i);
                assert(order@.contains(i as usize));
                let x = choose|x: int| 0 <= x < order@.len() && order@[x] == i as usize;
                assert(sv[i] == coverage@[i]@);
                assert(order@[x] as int == i);
                assert(sv[order@[x] as int].contains(e));
            }
        }
        assert(union_of(sv, r@) =~= Set::new(|e: usize| exists|i: int| 0 <= i < coverage@.len() && #[trigger] coverage@[i]@.contains(e)));
    }
    r
}


/// A call name followed directly by another.
pub type CallPair = (Seq<char>, Seq<char>);

/// `p` is a pair of consecutive calls of `calls`.
pub open spec fn has_pair(calls: Seq<Seq<char>>, p: CallPair) -> bool {
    exists|i: int| 0 <= i < calls.len() - 1 && #[trigger] calls[i] == p.0 && calls[i + 1] == p.1
}

/// The distinct pairs of consecutive calls, in the order they first occur.
pub open spec fn distinct_pairs(calls: Seq<Seq<char>>) -> Seq<CallPair>
    decreases calls.len(),
{
    if calls.len() < 2 {
        seq![]
    } else {
        let prev = distinct_pairs(calls.drop_last());
        let p = (calls[calls.len() - 2], calls[calls.len() - 1]);
        if prev.contains(p) {
            prev
        } else {
            prev.push(p)
        }
    }
}

/// The views of a list of string pairs.
pub open spec fn pair_views(v: Seq<(String, String)>) -> Seq<CallPair> {
    v.map_values(|p: (String, String)| (p.0@, p.1@))
}

/// Position of the pair `(a, b)` in `v`, if it is there.
fn find_pair(v: &Vec<(String, String)>, a: &String, b: &String) -> (r: Option<usize>)
    ensures
        r matches Some(i) ==> i < v@.len() && pair_views(v@)[i as int] == (a@, b@),
        r is None ==> !pair_views(v@).contains((a@, b@)),
{
    let mut i: usize = 0;
    while i < v.len()
        invariant
            i <= v@.len(),
            forall|j: int| 0 <= j < i ==> pair_views(v@)[j] != (a@, b@),
        decreases v@.len() - i,
    {
        if v[i].0 == *a && v[i].1 == *b {
            return Some(i);
        }
        i += 1;
    }
    None
}

/// The distinct pairs of consecutive calls, in the order they first occur.
pub fn extract_api_pairs(calls: &Vec<String>) -> (r: Vec<(String, String)>)
    ensures
        pair_views(r@) == distinct_pairs(views(calls@)),
        pair_views(r@).no_duplicates(),
        forall|p: CallPair| pair_views(r@).contains(p) <==> has_pair(views(calls@), p),
{
    let ghost cv = views(calls@);
    let mut out: Vec<(String, String)> = Vec::new();
    let mut i: usize = 1;
    if calls.len() < 2 {
        assert forall|p: CallPair| !has_pair(cv, p) by {}
        assert(pair_views(out@) =~= Seq::<CallPair>::empty());
        return out;
    }
    assert(pair_views(out@) =~= distinct_pairs(cv.subrange(0, 1)));
    while i < calls.len()
        invariant
            cv == views(calls@),
            1 <= i <= calls@.len(),
            pair_views(out@) == distinct_pairs(cv.subrange(0, i as int)),
            pair_views(out@).no_duplicates(),
            forall|p: CallPair| pair_views(out@).contains(p) <==> exists|j: int|
                0 <= j < i - 1 && #[trigger] cv[j] == p.0 && cv[j + 1] == p.1,
        decreases calls@.len() - i,
    {
        let ghost o0 = pair_views(out@);
        let a = &calls[i - 1];
        let b = &calls[i];
        proof {
            let c1 = cv.subrange(0, i + 1);
            assert(c1.drop_last() =~= cv.subrange(0, i as int));
            assert(c1[c1.len() - 2] == a@ && c1[c1.len() - 1] == b@);
        }
        if find_pair(&out, a, b).is_none() {
            out.push((a.clone(), b.clone()));
            assert(pair_views(out@) =~= o0.push((a@, b@)));
        }
        assert(pair_views(out@) == distinct_pairs(cv.subrange(0, i + 1)));
        assert forall|p: CallPair| pair_views(out@).contains(p) <==> exists|j: int|
            0 <= j < i && #[trigger] cv[j] == p.0 && cv[j + 1] == p.1 by {
            if p == (a@, b@) {
                assert(cv[i - 1] == p.0 && cv[i as int] == p.1);
                if o0.contains(p) {
                    let k = choose|k: int| 0 <= k < o0.len() && o0[k] == p;
                    assert(pair_views(out@)[k] == p);
                } else {
                    assert(pair_views(out@)[o0.len() as int] == p);
                }
            } else {
                if o0.contains(p) {
                    let k = choose|k: int| 0 <= k < o0.len() && o0[k] == p;
                    assert(pair_views(out@)[k] == p);
                }
                if pair_views(out@).contains(p) {
                    let k = choose|k: int| 0 <= k < pair_views(out@).len() && pair_views(out@)[k] == p;
                    if k < o0.len() {
                        assert(o0[k] == p);
                    }
                }
                if exists|j: int| 0 <= j < i && #[trigger] cv[j] == p.0 && cv[j + 1] == p.1 {
                    let j = choose|j: int| 0 <= j < i && #[trigger] cv[j] == p.0 && cv[j + 1] == p.1;
                    assert(j < i - 1);
                }
            }
        }
        i += 1;
    }
    assert(cv.subrange(0, calls@.len() as int) =~= cv);
    assert forall|p: CallPair| pair_views(out@).contains(p) <==> has_pair(cv, p) by {
        if has_pair(cv, p) {
            let j = choose|j: int| 0 <= j < cv.len() - 1 && #[trigger] cv[j] == p.0 && cv[j + 1] == p.1;
        }
    }
    out
}

/// The runs of three consecutive calls, in order.
pub fn extract_3gram_triples(calls: &Vec<String>) -> (r: Vec<(String, String, String)>)
    ensures
        calls@.len() >= 2 ==> r@.len() == calls@.len() - 2,
        calls@.len() < 2 ==> r@.len() == 0,
        forall|i: int| 0 <= i < r@.len() ==> {
            &&& (#[trigger] r@[i]).0@ == calls@[i]@
            &&& r@[i].1@ == calls@[i + 1]@
            &&& r@[i].2@ == calls@[i + 2]@
        },
{
    let mut out: Vec<(String, String, String)> = Vec::new();
    let mut i: usize = 2;
    while i < calls.len()
        invariant
            2 <= i,
            calls@.len() >= 2 ==> i <= calls@.len(),
            calls@.len() < 2 ==> i == 2,
            out@.len() == i - 2,
            forall|k: int| 0 <= k < out@.len() ==> {
                &&& (#[trigger] out@[k]).0@ == calls@[k]@
                &&& out@[k].1@ == calls@[k + 1]@
                &&& out@[k].2@ == calls@[k + 2]@
            },
        decreases calls@.len() - i,
    {
        out.push((calls[i - 2].clone(), calls[i - 1].clone(), calls[i].clone()));
        i += 1;
    }
    out
}

/// The pair-id lists of the programs and the table of pairs they index.
fn pair_id_sets(programs: &Vec<Vec<String>>) -> (r: (Vec<(String, String)>, Vec<Vec<usize>>))
    ensures
        pair_views(r.0@).no_duplicates(),
        r.1@.len() == programs@.len(),
        forall|i: int, e: usize| 0 <= i < programs@.len() ==> (#[trigger] r.1@[i]@.contains(e) <==> (e
            < r.0@.len() && has_pair(views(programs@[i]@), pair_views(r.0@)[e as int]))),
        forall|i: int, p: CallPair| 0 <= i < programs@.len() && #[trigger] has_pair(views(programs@[i]@), p) ==> pair_views(r.0@).contains(p),
        forall|i: int| 0 <= i < programs@.len() ==> (#[trigger] r.1@[i])@.len() == distinct_pairs(views(programs@[i]@)).len(),
{
    let mut table: Vec<(String, String)> = Vec::new();
    let mut sets: Vec<Vec<usize>> = Vec::new();
    let mut i: usize = 0;
    while i < programs.len()
        invariant
            i <= programs@.len(),
            sets@.len() == i,
            forall|k: int| 0 <= k < i ==> (#[trigger] sets@[k])@.len() == distinct_pairs(views(programs@[k]@)).len(),
            pair_views(table@).no_duplicates(),
            forall|k: int, e: usize| 0 <= k < i ==> (#[trigger] sets@[k]@.contains(e) <==> (e
                < table@.len() && has_pair(views(programs@[k]@), pair_views(table@)[e as int]))),
            forall|k: int, p: CallPair| 0 <= k < i && #[trigger] has_pair(views(programs@[k]@), p) ==> pair_views(table@).contains(p),
        decreases programs@.len() - i,
    {
        let pairs = extract_api_pairs(&programs[i]);
        let mut ids: Vec<usize> = Vec::new();
        let mut j: usize = 0;
        while j < pairs.len()
            invariant
                j <= pairs@.len(),
                ids@.len() == j,
                pair_views(pairs@) == distinct_pairs(views(programs@[i as int]@)),
                forall|k: int| 0 <= k < i ==> (#[trigger] sets@[k])@.len() == distinct_pairs(views(programs@[k]@)).len(),
                sets@.len() == i,
                i < programs@.len(),
                pair_views(table@).no_duplicates(),
                forall|p: CallPair| pair_views(pairs@).contains(p) <==> has_pair(views(programs@[i as int]@), p),
                forall|k: int, e: usize| 0 <= k < i ==> (#[trigger] sets@[k]@.contains(e) <==> (e
                    < table@.len() && has_pair(views(programs@[k]@), pair_views(table@)[e as int]))),
                forall|k: int, p: CallPair| 0 <= k < i && #[trigger] has_pair(views(programs@[k]@), p) ==> pair_views(table@).contains(p),
                forall|e: usize| #[trigger] ids@.contains(e) <==> (e < table@.len() && pair_views(pairs@).subrange(0, j as int).contains(pair_views(table@)[e as int])),
                forall|x: int| 0 <= x < j ==> pair_views(table@).contains(#[trigger] pair_views(pairs@)[x]),
            decreases pairs@.len() - j,
        {
            let ghost t0 = pair_views(table@);
            let ghost d0 = ids@;
            let ghost pv = pair_views(pairs@);
            let a = &pairs[j].0;
            let b = &pairs[j].1;
            assert(pv[j as int] == (a@, b@));
            let id = match find_pair(&table, a, b) {
                Some(k) => k,
                None => {
                    table.push((a.clone(), b.clone()));
                    assert(pair_views(table@) =~= t0.push((a@, b@)));
                    table.len() - 1
                },
            };
            ids.push(id);
            let ghost tv = pair_views(table@);
            proof {
                assert(tv[id as int] == (a@, b@));
                assert forall|x: int| 0 <= x < t0.len() implies tv[x] == t0[x] by {}
                assert(tv.no_duplicates()) by {
                    assert forall|x: int, y: int| 0 <= x < tv.len() && 0 <= y < tv.len() && x != y implies tv[x] != tv[y] by {
                        if x < t0.len() && y < t0.len() {
                            assert(t0[x] != t0[y]);
                        } else if x < t0.len() {
                            assert(!t0.contains((a@, b@)));
                        } else if y < t0.len() {
                            assert(!t0.contains((a@, b@)));
                        }
                    }
                }
                assert forall|k: int, e: usize| 0 <= k < i implies (#[trigger] sets@[k]@.contains(e) <==> (e
                    < table@.len() && has_pair(views(programs@[k]@), tv[e as int]))) by {
                    if sets@[k]@.contains(e) {
                        assert(tv[e as int] == t0[e as int]);
                    }
                    if e < table@.len() && has_pair(views(programs@[k]@), tv[e as int]) {
                        if e as int == t0.len() {
                            assert(tv[e as int] == (a@, b@));
                            assert(t0.contains(tv[e as int]));
                            let z = choose|z: int| 0 <= z < t0.len() && t0[z] == tv[e as int];
                            assert(tv[z] == tv[e as int]);
                        } else {
                            assert(tv[e as int] == t0[e as int]);
                        }
                    }
                }
                assert forall|k: int, p: CallPair| 0 <= k < i && #[trigger] has_pair(views(programs@[k]@), p) implies tv.contains(p) by {
                    let z = choose|z: int| 0 <= z < t0.len() && t0[z] == p;
                    assert(tv[z] == p);
                }
                assert forall|x: int| 0 <= x < j + 1 implies tv.contains(#[trigger] pv[x]) by {
                    if x < j {
                        let z = choose|z: int| 0 <= z < t0.len() && t0[z] == pv[x];
                        assert(tv[z] == pv[x]);
                    }
                }
                assert forall|e: usize| #[trigger] ids@.contains(e) <==> (e < table@.len() && pv.subrange(0, j + 1).contains(tv[e as int])) by {
                    if ids@.contains(e) {
                        let z = choose|z: int| 0 <= z < ids@.len() && ids@[z] == e;
                        if z < d0.len() {
                            assert(d0.contains(e));
                            let w = choose|w: int| 0 <= w < j && #[trigger] pv.subrange(0, j as int)[w] == t0[e as int];
                            assert(pv.subrange(0, j + 1)[w] == tv[e as int]);
                        } else {
                            assert(pv.subrange(0, j + 1)[j as int] == tv[e as int]);
                        }
                    }
                    if e < table@.len() && pv.subrange(0, j + 1).contains(tv[e as int]) {
                        let w = choose|w: int| 0 <= w < j + 1 && #[trigger] pv.subrange(0, j + 1)[w] == tv[e as int];
                        if w < j {
                            assert(pv.subrange(0, j as int)[w] == tv[e as int]);
                            let z = choose|z: int| 0 <= z < t0.len() && t0[z] == pv[w];
                            assert(tv[z] == tv[e as int]);
                            assert(z == e as int);
                            assert(d0.contains(e));
                            let q = choose|q: int| 0 <= q < d0.len() && d0[q] == e;
                            assert(ids@[q] == e);
                        } else {
                            assert(tv[id as int] == tv[e as int]);
                            assert(id == e);
                            assert(ids@[d0.len() as int] == e);
                        }
                    }
                }
            }
            j += 1;
        }
        let ghost tv = pair_views(table@);
        let ghost pv = pair_views(pairs@);
        assert(pv.subrange(0, pairs@.len() as int) =~= pv);
        sets.push(ids);
        assert forall|k: int, e: usize| 0 <= k < i + 1 implies (#[trigger] sets@[k]@.contains(e) <==> (e
            < table@.len() && has_pair(views(programs@[k]@), tv[e as int]))) by {
            if k == i {
                assert(sets@[k]@ == ids@);
            }
        }
        assert forall|k: int, p: CallPair| 0 <= k < i + 1 && #[trigger] has_pair(views(programs@[k]@), p) implies tv.contains(p) by {
            if k == i {
                assert(pv.contains(p));
                let x = choose|x: int| 0 <= x < pv.len() && pv[x] == p;
            }
        }
        i += 1;
    }
    (table, sets)
}

/// The pairs of consecutive calls that some program of `idxs` makes.
pub open spec fn pairs_covered(programs: Seq<Vec<String>>, idxs: Seq<usize>, p: CallPair) -> bool {
    exists|x: int| 0 <= x < idxs.len() && #[trigger] has_pair(views(programs[idxs[x] as int]@), p)
}

/// Program `i` makes a pair that none of the programs `prev` makes.
pub open spec fn adds_new_pair(programs: Seq<Vec<String>>, prev: Seq<usize>, i: usize) -> bool {
    exists|p: CallPair| has_pair(views(programs[i as int]@), p) && !pairs_covered(programs, prev, p)
}

/// The programs kept by walking `order` and keeping each program that makes
/// a pair of consecutive calls that the programs kept before it do not.
pub open spec fn kept_by_pairs(programs: Seq<Vec<String>>, order: Seq<usize>) -> Seq<usize>
    decreases order.len(),
{
    if order.len() == 0 {
        seq![]
    } else {
        let prev = kept_by_pairs(programs, order.drop_last());
        if adds_new_pair(programs, prev, order.last()) {
            prev.push(order.last())
        } else {
            prev
        }
    }
}

/// Program `a` is walked before program `b`: it makes more distinct pairs,
/// or as many and comes first.
pub open spec fn pair_ranked_before(programs: Seq<Vec<String>>, a: usize, b: usize) -> bool {
    let la = distinct_pairs(views(programs[a as int]@)).len();
    let lb = distinct_pairs(views(programs[b as int]@)).len();
    la > lb || (la == lb && a < b)
}

/// With pair ids standing for the pairs of `table`, the walk over id lists
/// keeps the same programs as the walk over pairs.
proof fn lemma_kept_ids_are_kept_pairs(
    programs: Seq<Vec<String>>,
    sv: Seq<Seq<usize>>,
    tv: Seq<CallPair>,
    order: Seq<usize>,
)
    requires
        sv.len() == programs.len(),
        tv.no_duplicates(),
        tv.len() <= usize::MAX,
        forall|x: int| 0 <= x < order.len() ==> #[trigger] order[x] < programs.len(),
        forall|i: int, e: usize| 0 <= i < programs.len() ==> (#[trigger] sv[i].contains(e) <==> (e < tv.len()
            && has_pair(views(programs[i]@), tv[e as int]))),
        forall|i: int, p: CallPair| 0 <= i < programs.len() && #[trigger] has_pair(views(programs[i]@), p) ==> tv.contains(p),
    ensures
        kept(sv, order) == kept_by_pairs(programs, order),
        forall|x: int| 0 <= x < kept(sv, order).len() ==> #[trigger] kept(sv, order)[x] < programs.len(),
    decreases order.len(),
{
    if order.len() > 0 {
        let o0 = order.drop_last();
        lemma_kept_ids_are_kept_pairs(programs, sv, tv, o0);
        let prev = kept(sv, o0);
        let i = order.last();
        assert(i < programs.len());
        assert(adds_new(sv, prev, i) == adds_new_pair(programs, prev, i)) by {
            if adds_new(sv, prev, i) {
                let e = choose|e: usize| sv[i as int].contains(e) && !union_of(sv, prev).contains(e);
                let p = tv[e as int];
                assert(has_pair(views(programs[i as int]@), p));
                if pairs_covered(programs, prev, p) {
                    let y = choose|y: int| 0 <= y < prev.len() && #[trigger] has_pair(views(programs[prev[y] as int]@), p);
                    assert(sv[prev[y] as int].contains(e));
                    assert(union_of(sv, prev).contains(e));
                }
            }
            if adds_new_pair(programs, prev, i) {
                let p = choose|p: CallPair| has_pair(views(programs[i as int]@), p) && !pairs_covered(programs, prev, p);
                assert(tv.contains(p));
                let e = choose|e: int| 0 <= e < tv.len() && tv[e] == p;
                assert((e as usize) as int == e);
                assert(sv[i as int].contains(e as usize));
                if union_of(sv, prev).contains(e as usize) {
                    let y = choose|y: int| 0 <= y < prev.len() && #[trigger] sv[prev[y] as int].contains(e as usize);
                    assert(has_pair(views(programs[prev[y] as int]@), p));
                }
            }
        }
        assert forall|x: int| 0 <= x < kept(sv, order).len() implies #[trigger] kept(sv, order)[x] < programs.len() by {
            if x < prev.len() {
                assert(kept(sv, order)[x] == prev[x]);
            }
        }
    }
}

/// Program `r[x]` makes a pair that none of the programs `r[0..x]` makes.
pub open spec fn makes_new_pair(programs: Seq<Vec<String>>, r: Seq<usize>, x: int) -> bool {
    exists|p: CallPair| has_pair(views(programs[r[x] as int]@), p) && !pairs_covered(programs, r.subrange(0, x), p)
}

/// API-pair minimisation: `programs[i]` lists the calls program `i` makes,
/// in order. Programs are walked from the one with the most distinct pairs
/// of consecutive calls, and each is kept if it makes a pair that no program
/// kept before it makes. The kept programs make every pair the corpus makes.
pub fn minimize_by_api_pairs(programs: &Vec<Vec<String>>) -> (r: Vec<usize>)
    ensures
        r@.len() <= programs@.len(),
        forall|x: int| 0 <= x < r@.len() ==> #[trigger] r@[x] < programs@.len(),
        forall|x: int, y: int| 0 <= y < x < r@.len() ==> #[trigger] r@[y] != #[trigger] r@[x],
        forall|x: int| 0 <= x < r@.len() ==> #[trigger] makes_new_pair(programs@, r@, x),
        exists|order: Seq<usize>| {
            &&& order.len() == programs@.len()
            &&& forall|i: usize| i < programs@.len() <==> order.contains(i)
            &&& forall|i: int, j: int| 0 <= i < j < order.len() ==> pair_ranked_before(programs@, #[trigger] order[i], #[trigger] order[j])
            &&& r@ == kept_by_pairs(programs@, order)
        },
        forall|p: CallPair| pairs_covered(programs@, r@, p) <==> exists|i: int|
            0 <= i < programs@.len() && #[trigger] has_pair(views(programs@[i]@), p),
{
    let (table, sets) = pair_id_sets(programs);
    let r = minimize(&sets);
    proof {
        let sv = sets_view(sets@);
        let tv = pair_views(table@);
        let order = choose|order: Seq<usize>| {
            &&& order.len() == sets@.len()
            &&& forall|i: int, j: int| 0 <= i < j < order.len() ==> ranked_before(sv, #[trigger] order[i], #[trigger] order[j])
            &&& forall|i: usize| i < sets@.len() <==> order.contains(i)
            &&& r@ == kept(sv, order)
        };
        lemma_kept_covers(sv, order);
        assert forall|x: int| 0 <= x < order.len() implies #[trigger] order[x] < programs@.len() by {
            assert(order.contains(order[x]));
        }
        assert(tv.len() == table@.len() && table@.len() == table.len());
        lemma_kept_ids_are_kept_pairs(programs@, sv, tv, order);
        assert forall|i: int, j: int| 0 <= i < j < order.len() implies pair_ranked_before(programs@, #[trigger] order[i], #[trigger] order[j]) by {
            assert(ranked_before(sv, order[i], order[j]));
            assert(order.contains(order[i]) && order.contains(order[j]));
        }
        assert forall|x: int| 0 <= x < r@.len() implies #[trigger] r@[x] < programs@.len() by {
            assert(order.contains(r@[x]));
        }
        assert forall|x: int, y: int| 0 <= y < x < r@.len() implies #[trigger] r@[y] != #[trigger] r@[x] by {
            lemma_kept_adds_new(sv, order, x);
        }
        assert forall|x: int| 0 <= x < r@.len() implies #[trigger] makes_new_pair(programs@, r@, x) by {
            lemma_kept_adds_new(sv, order, x);
            let pre = r@.subrange(0, x);
            let e = choose|e: usize| sv[r@[x] as int].contains(e) && !union_of(sv, pre).contains(e);
            assert(order.contains(r@[x]));
            assert(sets@[r@[x] as int]@.contains(e));
            let p = tv[e as int];
            assert(has_pair(views(programs@[r@[x] as int]@), p));
            if pairs_covered(programs@, pre, p) {
                let y = choose|y: int| 0 <= y < pre.len() && #[trigger] has_pair(views(programs@[pre[y] as int]@), p);
                assert(order.contains(r@[y]));
                assert(pre[y] == r@[y]);
                assert(tv.contains(p));
                let e2 = choose|e2: int| 0 <= e2 < tv.len() && tv[e2] == p;
                assert(e2 == e as int);
                assert(sets@[pre[y] as int]@.contains(e));
                assert(sv[pre[y] as int].contains(e));
                assert(union_of(sv, pre).contains(e));
            }
        }
        assert forall|p: CallPair| pairs_covered(programs@, r@, p) <==> exists|i: int|
            0 <= i < programs@.len() && #[trigger] has_pair(views(programs@[i]@), p) by {
            if exists|i: int| 0 <= i < programs@.len() && #[trigger] has_pair(views(programs@[i]@), p) {
                let i = choose|i: int| 0 <= i < programs@.len() && #[trigger] has_pair(views(programs@[i]@), p);
                let e = choose|e: int| 0 <= e < tv.len() && tv[e] == p;
                assert(tv.len() == table@.len());
                assert(table@.len() == table.len());
                assert((e as usize) as int == e);
                assert(sets@[i]@.contains(e as usize));
                assert(sv[i].contains(e as usize));
                let s_all = Set::new(|z: usize| exists|k: int| 0 <= k < sets@.len() && #[trigger] sets@[k]@.contains(z));
                assert(s_all.contains(e as usize));
                assert(union_of(sv, r@).contains(e as usize));
                let x = choose|x: int| 0 <= x < r@.len() && #[trigger] sv[r@[x] as int].contains(e as usize);
                assert(sets@[r@[x] as int]@.contains(e as usize));
                assert(has_pair(views(programs@[r@[x] as int]@), p));
            }
        }
    }
    r
}
} // verus!
