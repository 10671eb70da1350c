//! The energy-based power schedule over a library's APIs. Energies and
//! sampling weights are exact fractions.
use vstd::prelude::*;
use vstd::arithmetic::power::{pow, lemma_pow_increases, lemma_pow_positive};
use rand::Rng;

use crate::request::prompt::FuncGadget;

verus! {

/// `a/b < c/d` for positive denominators.
pub open spec fn frac_lt(a: int, b: int, c: int, d: int) -> bool {
    a * d < c * b
}

/// `a/b <= c/d` for positive denominators.
pub open spec fn frac_le(a: int, b: int, c: int, d: int) -> bool {
    a * d <= c * b
}

/// Numerator of a seed's energy: the uncovered part of its coverage
/// `cov_num / cov_den`.
pub open spec fn energy_num(cov_num: int, cov_den: int) -> int {
    cov_den - cov_num
}

/// Denominator of a seed's energy:
/// `cov_den * ((1 + exec_count) * (1 + prompt_count)) ^ exponent`.
pub open spec fn energy_den(cov_den: int, exec_count: int, prompt_count: int, exponent: nat) -> int {
    cov_den * pow((1 + exec_count) * (1 + prompt_count), exponent)
}

/// For fixed counts and exponent, a seed with more coverage has strictly
/// less energy.
pub proof fn lemma_energy_decreases(
    n1: int,
    n2: int,
    cov_den: int,
    exec_count: nat,
    prompt_count: nat,
    exponent: nat,
)
    requires
        0 <= n1 < n2 <= cov_den,
    ensures
        frac_lt(
            energy_num(n2, cov_den),
            energy_den(cov_den, exec_count as int, prompt_count as int, exponent),
            energy_num(n1, cov_den),
            energy_den(cov_den, exec_count as int, prompt_count as int, exponent),
        ),
{
    let b = (1 + exec_count) * (1 + prompt_count);
    assert(b >= 1) by (nonlinear_arith)
        requires
            b == (1 + exec_count) * (1 + prompt_count),
    ;
    lemma_pow_positive(b as int, exponent);
    let d = energy_den(cov_den, exec_count as int, prompt_count as int, exponent);
    assert(d > 0) by (nonlinear_arith)
        requires
            d == cov_den * pow(b as int, exponent),
            cov_den > 0,
            pow(b as int, exponent) > 0,
    ;
    assert((cov_den - n2) * d < (cov_den - n1) * d) by (nonlinear_arith)
        requires
            d > 0,
            n1 < n2,
    ;
}

/// The priority record of one API.
pub struct Seed {
    pub name: String,
    /// Covered part of the API's branches: `cov_num / cov_den`.
    pub cov_num: u32,
    pub cov_den: u32,
    pub exec_count: u32,
    pub prompt_count: u32,
    /// The energy, the fraction `energy_num / energy_den`.
    pub energy_num: u32,
    pub energy_den: u32,
    /// The sampling weight, the fraction `weight_num / weight_den`.
    pub weight_num: u128,
    pub weight_den: u128,
}

impl Seed {
    /// Energies and weights are fractions with positive denominators.
    pub open spec fn well_formed(&self) -> bool {
        self.energy_den > 0 && self.weight_den > 0
    }

    /// A seed whose energy is `(1 - coverage) / ((1 + exec_count) * (1 + prompt_count)) ^ exponent`,
    /// coverage being `cov_num / cov_den`.
    pub fn new(name: &str, cov_num: u32, cov_den: u32, exec_count: u32, prompt_count: u32, exponent: u32) -> (r: Seed)
        requires
            0 < cov_den,
            cov_num <= cov_den,
            energy_den(cov_den as int, exec_count as int, prompt_count as int, exponent as nat) <= u32::MAX,
        ensures
            r.well_formed(),
            r.name@ == name@,
            r.cov_num == cov_num && r.cov_den == cov_den,
            r.exec_count == exec_count && r.prompt_count == prompt_count,
            r.energy_num as int == energy_num(cov_num as int, cov_den as int),
            r.energy_den as int == energy_den(cov_den as int, exec_count as int, prompt_count as int, exponent as nat),
            r.weight_num == 0 && r.weight_den == 1,
    {
        let mut seed = Seed {
            name: name.to_string(),
            cov_num,
            cov_den,
            exec_count,
            prompt_count,
            energy_num: 0,
            energy_den: 1,
            weight_num: 0,
            weight_den: 1,
        };
        seed.compute_energy(exponent);
        seed
    }

    /// A seed of API-combination mode: base energy and weight 1.
    pub fn new_for_api_mode(name: &str) -> (r: Seed)
        ensures
            r.well_formed(),
            r.name@ == name@,
            r.cov_num == 0 && r.cov_den == 1 && r.exec_count == 0 && r.prompt_count == 0,
            r.energy_num == 1 && r.energy_den == 1,
            r.weight_num == 1 && r.weight_den == 1,
    {
        Seed {
            name: name.to_string(),
            cov_num: 0,
            cov_den: 1,
            exec_count: 0,
            prompt_count: 0,
            energy_num: 1,
            energy_den: 1,
            weight_num: 1,
            weight_den: 1,
        }
    }

    /// Recomputes the energy from the coverage and the counts.
    pub fn compute_energy(&mut self, exponent: u32) -> (r: (u32, u32))
        requires
            0 < old(self).cov_den,
            old(self).cov_num <= old(self).cov_den,
            energy_den(old(self).cov_den as int, old(self).exec_count as int, old(self).prompt_count as int, exponent as nat)
                <= u32::MAX,
        ensures
            final(self).energy_num as int == energy_num(old(self).cov_num as int, old(self).cov_den as int),
            final(self).energy_den as int == energy_den(
                old(self).cov_den as int,
                old(self).exec_count as int,
                old(self).prompt_count as int,
                exponent as nat,
            ),
            r == (final(self).energy_num, final(self).energy_den),
            final(self).energy_den > 0,
            final(self).name == old(self).name,
            final(self).cov_num == old(self).cov_num && final(self).cov_den == old(self).cov_den,
            final(self).exec_count == old(self).exec_count && final(self).prompt_count == old(self).prompt_count,
            final(self).weight_num == old(self).weight_num && final(self).weight_den == old(self).weight_den,
    {
        let ghost b: int = (1 + self.exec_count as int) * (1 + self.prompt_count as int);
        let ghost total = energy_den(self.cov_den as int, self.exec_count as int, self.prompt_count as int, exponent as nat);
        assert(b >= 1) by (nonlinear_arith)
            requires
                b == (1 + self.exec_count as int) * (1 + self.prompt_count as int),
                self.exec_count >= 0,
                self.prompt_count >= 0,
        ;
        proof {
            lemma_pow_positive(b, exponent as nat);
            lemma_pow_increases(b as nat, 0, exponent as nat);
        }
        assert(pow(b, exponent as nat) <= total) by (nonlinear_arith)
            requires
                total == self.cov_den as int * pow(b, exponent as nat),
                self.cov_den >= 1,
                pow(b, exponent as nat) >= 1,
        ;
        let mut acc: u64 = self.cov_den as u64;
        assert(pow(b, 0) == 1) by {
            vstd::arithmetic::power::lemma_pow0(b);
        }
        if exponent == 0 {
            assert(total == self.cov_den as int * 1);
            self.energy_num = self.cov_den - self.cov_num;
            self.energy_den = self.cov_den;
            return (self.energy_num, self.energy_den);
        }
        assert(b <= u32::MAX) by {
            lemma_pow_increases(b as nat, 1, exponent as nat);
            vstd::arithmetic::power::lemma_pow1(b);
        }
        let base: u64 = (1 + self.exec_count as u64) * (1 + self.prompt_count as u64);
        let mut i: u32 = 0;
        while i < exponent
            invariant
                base as int == b,
                b >= 1,
                i <= exponent,
                acc as int == self.cov_den as int * pow(b, i as nat),
                total == self.cov_den as int * pow(b, exponent as nat),
                total <= u32::MAX,
                self.cov_den >= 1,
            decreases exponent - i,
        {
            proof {
                lemma_pow_increases(b as nat, (i + 1) as nat, exponent as nat);
                assert(pow(b, (i + 1) as nat) == b * pow(b, i as nat)) by {
                    vstd::arithmetic::power::lemma_pow_adds(b, i as nat, 1);
                    vstd::arithmetic::power::lemma_pow1(b);
                }
                assert(self.cov_den as int * pow(b, (i + 1) as nat) <= total) by (nonlinear_arith)
                    requires
                        pow(b, (i + 1) as nat) <= pow(b, exponent as nat),
                        total == self.cov_den as int * pow(b, exponent as nat),
                        self.cov_den >= 1,
                ;
                assert(acc * b == self.cov_den as int * pow(b, (i + 1) as nat)) by (nonlinear_arith)
                    requires
                        acc as int == self.cov_den as int * pow(b, i as nat),
                        pow(b, (i + 1) as nat) == b * pow(b, i as nat),
                ;
            }
            acc = acc * base;
            i += 1;
        }
        self.energy_num = self.cov_den - self.cov_num;
        self.energy_den = acc as u32;
        proof {
            lemma_pow_positive(b, exponent as nat);
            assert(acc > 0) by (nonlinear_arith)
                requires
                    acc as int == self.cov_den as int * pow(b, exponent as nat),
                    self.cov_den >= 1,
                    pow(b, exponent as nat) >= 1,
            ;
        }
        (self.energy_num, self.energy_den)
    }
}


/// The sampling weight of a seed of energy `a/b` when the energies range
/// from `ma/mb` to `xa/xb`: `eps + (1 - eps) * (e - min) / (max - min)`,
/// with `eps = en/ed`, as a fraction; 1 when all energies are equal.
pub open spec fn norm_weight(a: int, b: int, ma: int, mb: int, xa: int, xb: int, en: int, ed: int) -> (int, int) {
    let p = (a * mb - ma * b) * xb;
    let q = (xa * mb - ma * xb) * b;
    if q == 0 {
        (1, 1)
    } else {
        (en * q + (ed - en) * p, ed * q)
    }
}

/// A normalised weight lies between `eps` and 1, and is 1 for a seed of
/// the highest energy.
pub proof fn lemma_norm_bounds(a: int, b: int, ma: int, mb: int, xa: int, xb: int, en: int, ed: int)
    requires
        b > 0 && mb > 0 && xb > 0,
        0 <= en <= ed,
        ed > 0,
        frac_le(ma, mb, a, b),
        frac_le(a, b, xa, xb),
    ensures
        ({
            let w = norm_weight(a, b, ma, mb, xa, xb, en, ed);
            &&& w.1 > 0
            &&& 0 <= w.0 <= w.1
            &&& frac_le(en, ed, w.0, w.1)
            &&& (frac_le(xa, xb, a, b) ==> w.0 == w.1)
        }),
        0 <= (a * mb - ma * b) * xb <= (xa * mb - ma * xb) * b,
{
    let p = (a * mb - ma * b) * xb;
    let q = (xa * mb - ma * xb) * b;
    assert(p >= 0) by (nonlinear_arith)
        requires
            p == (a * mb - ma * b) * xb,
            ma * b <= a * mb,
            xb > 0,
    ;
    assert(p <= q) by (nonlinear_arith)
        requires
            p == (a * mb - ma * b) * xb,
            q == (xa * mb - ma * xb) * b,
            a * xb <= xa * b,
            mb > 0,
    ;
    if q != 0 {
        assert(q > 0);
        assert(en * q + (ed - en) * p <= ed * q) by (nonlinear_arith)
            requires
                0 <= p <= q,
                0 <= en <= ed,
        ;
        assert(en * q + (ed - en) * p >= 0) by (nonlinear_arith)
            requires
                0 <= p,
                0 < q,
                0 <= en <= ed,
        ;
        assert(ed * q > 0) by (nonlinear_arith)
            requires
                ed > 0,
                q > 0,
        ;
        assert(en * (ed * q) <= (en * q + (ed - en) * p) * ed) by (nonlinear_arith)
            requires
                0 <= p,
                0 <= en <= ed,
                ed > 0,
        ;
        if frac_le(xa, xb, a, b) {
            assert(a * xb == xa * b);
            assert(a * mb * xb == xa * mb * b) by (nonlinear_arith)
                requires
                    a * xb == xa * b,
            ;
            assert(p == a * mb * xb - ma * b * xb) by (nonlinear_arith)
                requires
                    p == (a * mb - ma * b) * xb,
            ;
            assert(q == xa * mb * b - ma * xb * b) by (nonlinear_arith)
                requires
                    q == (xa * mb - ma * xb) * b,
            ;
            assert(ma * b * xb == ma * xb * b) by (nonlinear_arith);
            assert(p == q);
            assert(en * q + (ed - en) * p == ed * q) by (nonlinear_arith)
                requires
                    p == q,
            ;
        }
    } else {
        assert(en * 1 <= 1 * ed);
    }
}

/// Energy of seed `i` is at most that of seed `j`.
pub open spec fn energy_le(s: Seq<Seed>, i: int, j: int) -> bool {
    frac_le(s[i].energy_num as int, s[i].energy_den as int, s[j].energy_num as int, s[j].energy_den as int)
}

/// Seed `mi` has the least energy and seed `xi` the greatest.
pub open spec fn is_min_max(s: Seq<Seed>, mi: int, xi: int) -> bool {
    &&& 0 <= mi < s.len()
    &&& 0 <= xi < s.len()
    &&& forall|j: int| 0 <= j < s.len() ==> energy_le(s, mi, j) && energy_le(s, j, xi)
}

/// Whether the energy `a/b` is below `c/d`.
fn frac_less(a: u32, b: u32, c: u32, d: u32) -> (r: bool)
    ensures
        r == frac_lt(a as int, b as int, c as int, d as int),
{
    assert((a as int) * (d as int) <= u64::MAX) by (nonlinear_arith)
        requires
            a <= u32::MAX,
            d <= u32::MAX,
    ;
    assert((c as int) * (b as int) <= u64::MAX) by (nonlinear_arith)
        requires
            c <= u32::MAX,
            b <= u32::MAX,
    ;
    let l = (a as u64) * (d as u64);
    let rr = (c as u64) * (b as u64);
    l < rr
}

/// No two seeds have the same name.
pub open spec fn names_distinct(s: Seq<Seed>) -> bool {
    forall|i: int, j: int| 0 <= i < j < s.len() ==> (#[trigger] s[i]).name@ != (#[trigger] s[j]).name@
}

/// Some seed is named `n`.
pub open spec fn has_seed_named(s: Seq<Seed>, n: Seq<char>) -> bool {
    exists|j: int| 0 <= j < s.len() && s[j].name@ == n
}

/// Seed `s` is the one `Seed::new` builds from the statistics `t`.
pub open spec fn built_from(s: Seed, t: ApiStats, exponent: u32) -> bool {
    &&& s.well_formed()
    &&& s.name@ == t.name@
    &&& s.cov_num == t.cov_num && s.cov_den == t.cov_den
    &&& s.exec_count == t.exec_count && s.prompt_count == t.prompt_count
    &&& s.energy_num as int == energy_num(t.cov_num as int, t.cov_den as int)
    &&& s.energy_den as int == energy_den(t.cov_den as int, t.exec_count as int, t.prompt_count as int, exponent as nat)
    &&& s.weight_num == 0 && s.weight_den == 1
}

/// No statistics after position `k`, up to `n`, name the same API.
pub open spec fn last_for_name(stats: Seq<ApiStats>, k: int, n: int) -> bool {
    forall|k2: int| k < k2 < n ==> (#[trigger] stats[k2]).name@ != stats[k].name@
}

/// Seed `s` is built from the last of the first `n` statistics that name
/// its API.
pub open spec fn from_last_stats(stats: Seq<ApiStats>, s: Seed, exponent: u32, n: int) -> bool {
    exists|k: int| 0 <= k < n && #[trigger] built_from(s, stats[k], exponent) && last_for_name(stats, k, n)
}

/// Puts `seed` in place of the seed of the same name, or appends it.
fn upsert_seed(seeds: &mut Vec<Seed>, seed: Seed)
    requires
        names_distinct(old(seeds)@),
        seed.well_formed(),
        forall|j: int| 0 <= j < old(seeds)@.len() ==> (#[trigger] old(seeds)@[j]).well_formed(),
    ensures
        names_distinct(final(seeds)@),
        forall|j: int| 0 <= j < final(seeds)@.len() ==> (#[trigger] final(seeds)@[j]).well_formed(),
        final(seeds)@.len() >= old(seeds)@.len(),
        has_seed_named(final(seeds)@, seed.name@),
        forall|j: int| 0 <= j < final(seeds)@.len() ==> #[trigger] final(seeds)@[j] == seed || (j < old(seeds)@.len()
            && final(seeds)@[j] == old(seeds)@[j] && old(seeds)@[j].name@ != seed.name@),
        forall|j: int| 0 <= j < old(seeds)@.len() && old(seeds)@[j].name@ != seed.name@ ==> #[trigger] final(seeds)@[j] == old(seeds)@[j],
{
    let ghost s0 = seeds@;
    let ghost sd = seed;
    let mut i: usize = 0;
    while i < seeds.len()
        invariant
            seeds@ == s0,
            s0 == old(seeds)@,
            seed == sd,
            sd.well_formed(),
            forall|j: int| 0 <= j < s0.len() ==> (#[trigger] s0[j]).well_formed(),
            names_distinct(s0),
            i <= s0.len(),
            forall|j: int| 0 <= j < i ==> (#[trigger] s0[j]).name@ != sd.name@,
        decreases s0.len() - i,
    {
        if seeds[i].name == seed.name {
            seeds.set(i, seed);
            assert(seeds@[i as int] == sd);
            assert forall|a: int, b: int| 0 <= a < b < seeds@.len() implies (#[trigger] seeds@[a]).name@ != (#[trigger] seeds@[b]).name@ by {
                if a != i && b != i {
                    assert(s0[a].name@ != s0[b].name@);
                } else if a == i {
                    assert(s0[a].name@ != s0[b].name@);
                } else {
                    assert(s0[a].name@ != s0[b].name@);
                }
            }
            return;
        }
        i += 1;
    }
    seeds.push(seed);
    assert(seeds@[s0.len() as int] == sd);
}

/// The per-API statistics a schedule is rebuilt from.
pub struct ApiStats {
    pub name: String,
    pub cov_num: u32,
    pub cov_den: u32,
    pub exec_count: u32,
    pub prompt_count: u32,
}

/// The schedule: one seed per API, the coverage exponent and a loop count.
pub struct Schedule {
    pub seeds: Vec<Seed>,
    pub exponent: u32,
    pub loop_count: u32,
}

impl Default for Schedule {
    /// An empty schedule with exponent 1.
    fn default() -> (r: Schedule)
        ensures
            r.well_formed(),
            r.seeds@.len() == 0,
            r.exponent == 1,
            r.loop_count == 0,
    {
        Schedule::new()
    }
}

impl Schedule {
    /// Every seed is well formed.
    pub open spec fn well_formed(&self) -> bool {
        &&& forall|i: int| 0 <= i < self.seeds@.len() ==> (#[trigger] self.seeds@[i]).well_formed()
        &&& names_distinct(self.seeds@)
    }

    /// An empty schedule with exponent 1.
    pub fn new() -> (r: Schedule)
        ensures
            r.well_formed(),
            r.seeds@.len() == 0,
            r.exponent == 1,
            r.loop_count == 0,
    {
        Schedule { seeds: Vec::new(), exponent: 1, loop_count: 0 }
    }

    /// Counts one more round of the outer loop.
    pub fn increment_loop(&mut self)
        requires
            old(self).loop_count < u32::MAX,
        ensures
            final(self).loop_count == old(self).loop_count + 1,
            final(self).seeds == old(self).seeds,
            final(self).exponent == old(self).exponent,
    {
        self.loop_count = self.loop_count + 1;
    }

    /// The first seed named `name`.
    pub fn get_seed_by_name(&self, name: &str) -> (r: Option<&Seed>)
        ensures
            r matches Some(s) ==> exists|i: int| 0 <= i < self.seeds@.len() && self.seeds@[i] == *s && s.name@ == name@,
            r is None ==> forall|i: int| 0 <= i < self.seeds@.len() ==> #[trigger] self.seeds@[i].name@ != name@,
    {
        match self.position_of(name) {
            Some(i) => Some(&self.seeds[i]),
            None => None,
        }
    }

    /// Index of the first seed named `name`.
    fn position_of(&self, name: &str) -> (r: Option<usize>)
        ensures
            r matches Some(i) ==> i < self.seeds@.len() && self.seeds@[i as int].name@ == name@ && forall|j: int|
                0 <= j < i ==> #[trigger] self.seeds@[j].name@ != name@,
            r is None ==> forall|i: int| 0 <= i < self.seeds@.len() ==> #[trigger] self.seeds@[i].name@ != name@,
    {
        let target = name.to_string();
        let mut i: usize = 0;
        while i < self.seeds.len()
            invariant
                target@ == name@,
                i <= self.seeds@.len(),
                forall|j: int| 0 <= j < i ==> #[trigger] self.seeds@[j].name@ != name@,
            decreases self.seeds@.len() - i,
        {
            if self.seeds[i].name == target {
                return Some(i);
            }
            i += 1;
        }
        None
    }

    /// Rebuilds the seeds for API-combination mode: one seed of base energy
    /// and weight per distinct API name.
    pub fn initialize_energies_for_api_mode(&mut self, api_names: &Vec<String>)
        ensures
            final(self).well_formed(),
            forall|i: int| 0 <= i < final(self).seeds@.len() ==> {
                &&& (#[trigger] final(self).seeds@[i]).energy_num == 1 && final(self).seeds@[i].energy_den == 1
                &&& final(self).seeds@[i].weight_num == 1 && final(self).seeds@[i].weight_den == 1
                &&& exists|k: int| 0 <= k < api_names@.len() && api_names@[k]@ == final(self).seeds@[i].name@
            },
            forall|k: int| 0 <= k < api_names@.len() ==> has_seed_named(final(self).seeds@, #[trigger] api_names@[k]@),
            final(self).exponent == old(self).exponent,
            final(self).loop_count == old(self).loop_count,
    {
        let mut seeds: Vec<Seed> = Vec::new();
        let mut i: usize = 0;
        while i < api_names.len()
            invariant
                i <= api_names@.len(),
                names_distinct(seeds@),
                forall|j: int| 0 <= j < seeds@.len() ==> {
                    &&& (#[trigger] seeds@[j]).well_formed()
                    &&& seeds@[j].energy_num == 1 && seeds@[j].energy_den == 1
                    &&& seeds@[j].weight_num == 1 && seeds@[j].weight_den == 1
                    &&& exists|k: int| 0 <= k < i && api_names@[k]@ == seeds@[j].name@
                },
                forall|k: int| 0 <= k < i ==> has_seed_named(seeds@, #[trigger] api_names@[k]@),
            decreases api_names@.len() - i,
        {
            let ghost s0 = seeds@;
            let seed = Seed::new_for_api_mode(api_names[i].as_str());
            let ghost sd = seed;
            upsert_seed(&mut seeds, seed);
            proof {
                assert forall|j: int| 0 <= j < seeds@.len() implies {
                    &&& (#[trigger] seeds@[j]).well_formed()
                    &&& seeds@[j].energy_num == 1 && seeds@[j].energy_den == 1
                    &&& seeds@[j].weight_num == 1 && seeds@[j].weight_den == 1
                    &&& exists|k: int| 0 <= k < i + 1 && api_names@[k]@ == seeds@[j].name@
                } by {
                    if seeds@[j] != sd {
                        assert(seeds@[j] == s0[j]);
                        let k = choose|k: int| 0 <= k < i && api_names@[k]@ == s0[j].name@;
                    }
                }
                assert forall|k: int| 0 <= k < i + 1 implies has_seed_named(seeds@, #[trigger] api_names@[k]@) by {
                    if k < i {
                        let j = choose|j: int| 0 <= j < s0.len() && s0[j].name@ == api_names@[k]@;
                        if s0[j].name@ != sd.name@ {
                            assert(seeds@[j] == s0[j]);
                        }
                    }
                }
            }
            i += 1;
        }
        self.seeds = seeds;
    }

    /// Rebuilds the whole seed set from per-API statistics: one seed per
    /// distinct API name, from the last statistics given for that name.
    pub fn update_energies(&mut self, stats: &Vec<ApiStats>)
        requires
            forall|i: int| 0 <= i < stats@.len() ==> {
                &&& 0 < (#[trigger] stats@[i]).cov_den
                &&& stats@[i].cov_num <= stats@[i].cov_den
                &&& energy_den(stats@[i].cov_den as int, stats@[i].exec_count as int, stats@[i].prompt_count as int, old(self).exponent as nat) <= u32::MAX
            },
        ensures
            final(self).well_formed(),
            final(self).exponent == old(self).exponent,
            final(self).loop_count == old(self).loop_count,
            forall|j: int| 0 <= j < final(self).seeds@.len() ==> #[trigger] from_last_stats(
                stats@,
                final(self).seeds@[j],
                final(self).exponent,
                stats@.len() as int,
            ),
            forall|k: int| 0 <= k < stats@.len() ==> has_seed_named(final(self).seeds@, #[trigger] stats@[k].name@),
    {
        let mut seeds: Vec<Seed> = Vec::new();
        let mut i: usize = 0;
        while i < stats.len()
            invariant
                i <= stats@.len(),
                names_distinct(seeds@),
                forall|k: int| 0 <= k < stats@.len() ==> {
                    &&& 0 < (#[trigger] stats@[k]).cov_den
                    &&& stats@[k].cov_num <= stats@[k].cov_den
                    &&& energy_den(stats@[k].cov_den as int, stats@[k].exec_count as int, stats@[k].prompt_count as int, self.exponent as nat) <= u32::MAX
                },
                forall|j: int| 0 <= j < seeds@.len() ==> (#[trigger] seeds@[j]).well_formed() && from_last_stats(
                    stats@,
                    seeds@[j],
                    self.exponent,
                    i as int,
                ),
                forall|k: int| 0 <= k < i ==> has_seed_named(seeds@, #[trigger] stats@[k].name@),
            decreases stats@.len() - i,
        {
            let ghost s0 = seeds@;
            let t = &stats[i];
            let seed = Seed::new(t.name.as_str(), t.cov_num, t.cov_den, t.exec_count, t.prompt_count, self.exponent);
            let ghost sd = seed;
            assert(built_from(sd, stats@[i as int], self.exponent));
            upsert_seed(&mut seeds, seed);
            proof {
                assert forall|j: int| 0 <= j < seeds@.len() implies (#[trigger] seeds@[j]).well_formed() && from_last_stats(
                    stats@,
                    seeds@[j],
                    self.exponent,
                    i + 1,
                ) by {
                    if seeds@[j] == sd {
                        assert(built_from(seeds@[j], stats@[i as int], self.exponent) && last_for_name(stats@, i as int, i + 1));
                    } else {
                        assert(seeds@[j] == s0[j]);
                        assert(from_last_stats(stats@, s0[j], self.exponent, i as int));
                        let k = choose|k: int| 0 <= k < i && #[trigger] built_from(s0[j], stats@[k], self.exponent) && last_for_name(stats@, k, i as int);
                        assert(stats@[i as int].name@ != stats@[k].name@);
                        assert(last_for_name(stats@, k, i + 1));
                    }
                }
                assert forall|k: int| 0 <= k < i + 1 implies has_seed_named(seeds@, #[trigger] stats@[k].name@) by {
                    if k < i {
                        let j = choose|j: int| 0 <= j < s0.len() && s0[j].name@ == stats@[k].name@;
                        if s0[j].name@ != sd.name@ {
                            assert(seeds@[j] == s0[j]);
                        }
                    }
                }
            }
            i += 1;
        }
        self.seeds = seeds;
    }

    /// Whether the current combination is unproductive: no success after ten
    /// or more attempts, or fewer than one success in ten attempts.
    pub fn should_shuffle(&self, succ: usize, total: usize) -> (r: bool)
        ensures
            r == ((succ == 0 && total >= 10) || (succ > 0 && succ * 10 < total)),
    {
        if succ == 0 {
            return total >= 10;
        }
        (succ as u128) * 10 < total as u128
    }
}


proof fn lemma_frac_le_trans(a: int, b: int, c: int, d: int, e: int, f: int)
    requires
        b > 0 && d > 0 && f > 0,
        frac_le(a, b, c, d),
        frac_le(c, d, e, f),
    ensures
        frac_le(a, b, e, f),
{
    assert(a * d * f <= c * b * f) by (nonlinear_arith)
        requires
            a * d <= c * b,
            f > 0,
    ;
    assert(c * f * b <= e * d * b) by (nonlinear_arith)
        requires
            c * f <= e * d,
            b > 0,
    ;
    assert(a * f * d <= e * b * d) by (nonlinear_arith)
        requires
            a * d * f <= c * b * f,
            c * f * b <= e * d * b,
    ;
    assert(a * f <= e * b) by (nonlinear_arith)
        requires
            a * f * d <= e * b * d,
            d > 0,
    ;
}

/// The normalised weight of energy `a/b` for the range `ma/mb` to `xa/xb`.
fn weight_of(a: u32, b: u32, ma: u32, mb: u32, xa: u32, xb: u32, en: u32, ed: u32) -> (r: (u128, u128))
    requires
        b > 0 && mb > 0 && xb > 0,
        en <= ed,
        ed > 0,
        frac_le(ma as int, mb as int, a as int, b as int),
        frac_le(a as int, b as int, xa as int, xb as int),
    ensures
        (r.0 as int, r.1 as int) == norm_weight(a as int, b as int, ma as int, mb as int, xa as int, xb as int, en as int, ed as int),
{
    proof {
        lemma_norm_bounds(a as int, b as int, ma as int, mb as int, xa as int, xb as int, en as int, ed as int);
        lemma_frac_le_trans(ma as int, mb as int, a as int, b as int, xa as int, xb as int);
    }
    let ghost gp = (a * mb - ma * b) * xb;
    let ghost gq = (xa * mb - ma * xb) * b;
    assert(a as int * mb as int <= u64::MAX && ma as int * b as int <= u64::MAX && xa as int * mb as int <= u64::MAX && ma as int * xb as int <= u64::MAX) by (nonlinear_arith)
        requires
            a <= u32::MAX && mb <= u32::MAX && ma <= u32::MAX && b <= u32::MAX && xa <= u32::MAX && xb <= u32::MAX,
    ;
    let d1: u64 = (a as u64) * (mb as u64) - (ma as u64) * (b as u64);
    let d2: u64 = (xa as u64) * (mb as u64) - (ma as u64) * (xb as u64);
    assert(d1 as int * xb as int <= u128::MAX && d2 as int * b as int <= u128::MAX) by (nonlinear_arith)
        requires
            d1 <= u64::MAX && d2 <= u64::MAX && xb <= u32::MAX && b <= u32::MAX,
    ;
    let p: u128 = (d1 as u128) * (xb as u128);
    let q: u128 = (d2 as u128) * (b as u128);
    assert(p as int == (a * mb - ma * b) * xb);
    assert(q as int == (xa * mb - ma * xb) * b);
    if q == 0 {
        return (1, 1);
    }
    assert(q as int <= u64::MAX as int * u32::MAX as int) by (nonlinear_arith)
        requires
            q as int == d2 as int * b as int,
            d2 <= u64::MAX,
            b <= u32::MAX,
    ;
    assert(ed as int * q as int <= u128::MAX) by (nonlinear_arith)
        requires
            q as int <= u64::MAX as int * u32::MAX as int,
            ed <= u32::MAX,
            q >= 0,
    ;
    assert(p <= q);
    assert(en as int * q as int <= ed as int * q as int && (ed - en) as int * p as int <= ed as int * q as int) by (nonlinear_arith)
        requires
            en <= ed,
            p <= q,
            q >= 0,
            p >= 0,
    ;
    let wn: u128 = (en as u128) * q + ((ed - en) as u128) * p;
    let wd: u128 = (ed as u128) * q;
    (wn, wd)
}

impl Schedule {
    /// Rescales every seed's energy into a sampling weight
    /// `eps + (1 - eps) * (energy - min) / (max - min)`, `eps = eps_num / eps_den`,
    /// min and max taken over the current seeds; where all energies are
    /// equal every weight is 1.
    pub fn energy_normalization(&mut self, eps_num: u32, eps_den: u32)
        requires
            old(self).well_formed(),
            eps_num <= eps_den,
            eps_den > 0,
        ensures
            final(self).well_formed(),
            final(self).seeds@.len() == old(self).seeds@.len(),
            final(self).exponent == old(self).exponent,
            final(self).loop_count == old(self).loop_count,
            old(self).seeds@.len() > 0 ==> exists|mi: int, xi: int| {
                &&& #[trigger] is_min_max(old(self).seeds@, mi, xi)
                &&& forall|i: int| 0 <= i < old(self).seeds@.len() ==> {
                    let s = #[trigger] old(self).seeds@[i];
                    let m = old(self).seeds@[mi];
                    let x = old(self).seeds@[xi];
                    (final(self).seeds@[i].weight_num as int, final(self).seeds@[i].weight_den as int) == norm_weight(
                        s.energy_num as int, s.energy_den as int, m.energy_num as int, m.energy_den as int,
                        x.energy_num as int, x.energy_den as int, eps_num as int, eps_den as int)
                }
            },
            forall|i: int| 0 <= i < old(self).seeds@.len() ==> {
                let s = #[trigger] final(self).seeds@[i];
                let o = old(self).seeds@[i];
                &&& s.name == o.name && s.cov_num == o.cov_num && s.cov_den == o.cov_den
                &&& s.exec_count == o.exec_count && s.prompt_count == o.prompt_count
                &&& s.energy_num == o.energy_num && s.energy_den == o.energy_den
                &&& frac_le(eps_num as int, eps_den as int, s.weight_num as int, s.weight_den as int)
                &&& s.weight_num <= s.weight_den
                &&& ((forall|j: int| 0 <= j < old(self).seeds@.len() ==> energy_le(old(self).seeds@, j, i)) ==> s.weight_num == s.weight_den)
            },
    {
        let n = self.seeds.len();
        if n == 0 {
            return;
        }
        let ghost s0 = self.seeds@;
        let mut mi: usize = 0;
        let mut xi: usize = 0;
        let mut i: usize = 1;
        while i < n
            invariant
                n == self.seeds@.len(),
                self.seeds@ == s0,
                self.well_formed(),
                self.exponent == old(self).exponent,
                self.loop_count == old(self).loop_count,
                1 <= i <= n,
                mi < n && xi < n,
                forall|j: int| 0 <= j < i ==> energy_le(s0, mi as int, j) && energy_le(s0, j, xi as int),
            decreases n - i,
        {
            let si = &self.seeds[i];
            let sm = &self.seeds[mi];
            let sx = &self.seeds[xi];
            assert(self.seeds@[i as int].well_formed() && self.seeds@[mi as int].well_formed() && self.seeds@[xi as int].well_formed());
            if frac_less(si.energy_num, si.energy_den, sm.energy_num, sm.energy_den) {
                proof {
                    assert forall|j: int| 0 <= j < i implies energy_le(s0, i as int, j) by {
                        assert(s0[j].well_formed());
                        assert(energy_le(s0, mi as int, j));
                        lemma_frac_le_trans(si.energy_num as int, si.energy_den as int, sm.energy_num as int,
                            sm.energy_den as int, s0[j].energy_num as int, s0[j].energy_den as int);
                    }
                }
                mi = i;
            }
            if frac_less(sx.energy_num, sx.energy_den, si.energy_num, si.energy_den) {
                proof {
                    assert forall|j: int| 0 <= j < i implies energy_le(s0, j, i as int) by {
                        assert(s0[j].well_formed());
                        assert(energy_le(s0, j, xi as int));
                        lemma_frac_le_trans(s0[j].energy_num as int, s0[j].energy_den as int, sx.energy_num as int,
                            sx.energy_den as int, si.energy_num as int, si.energy_den as int);
                    }
                }
                xi = i;
            }
            i += 1;
        }
        let ma = self.seeds[mi].energy_num;
        let mb = self.seeds[mi].energy_den;
        let xa = self.seeds[xi].energy_num;
        let xb = self.seeds[xi].energy_den;
        assert(s0[mi as int].well_formed() && s0[xi as int].well_formed());
        let mut k: usize = 0;
        while k < n
            invariant
                n == self.seeds@.len(),
                n == s0.len(),
                self.exponent == old(self).exponent,
                self.loop_count == old(self).loop_count,
                s0 == old(self).seeds@,
                k <= n,
                mi < n && xi < n,
                ma == s0[mi as int].energy_num && mb == s0[mi as int].energy_den,
                xa == s0[xi as int].energy_num && xb == s0[xi as int].energy_den,
                mb > 0 && xb > 0,
                eps_num <= eps_den,
                eps_den > 0,
                forall|j: int| 0 <= j < n ==> energy_le(s0, mi as int, j) && energy_le(s0, j, xi as int),
                forall|j: int| 0 <= j < n ==> (#[trigger] s0[j]).well_formed(),
                forall|j: int| k <= j < n ==> #[trigger] self.seeds@[j] == s0[j],
                forall|j: int| 0 <= j < k ==> {
                    let s = #[trigger] self.seeds@[j];
                    let o = s0[j];
                    &&& s.name == o.name && s.cov_num == o.cov_num && s.cov_den == o.cov_den
                    &&& s.exec_count == o.exec_count && s.prompt_count == o.prompt_count
                    &&& s.energy_num == o.energy_num && s.energy_den == o.energy_den
                    &&& (s.weight_num as int, s.weight_den as int) == norm_weight(o.energy_num as int, o.energy_den as int,
                        ma as int, mb as int, xa as int, xb as int, eps_num as int, eps_den as int)
                },
            decreases n - k,
        {
            let a = self.seeds[k].energy_num;
            let b = self.seeds[k].energy_den;
            assert(energy_le(s0, mi as int, k as int) && energy_le(s0, k as int, xi as int));
            let w = weight_of(a, b, ma, mb, xa, xb, eps_num, eps_den);
            let ghost before = self.seeds@;
            self.seeds[k].weight_num = w.0;
            self.seeds[k].weight_den = w.1;
            assert forall|j: int| 0 <= j < n && j != k implies #[trigger] self.seeds@[j] == before[j] by {}
            k += 1;
        }
        proof {
            assert(is_min_max(s0, mi as int, xi as int));
            assert forall|i: int| 0 <= i < n implies {
                let s = #[trigger] self.seeds@[i];
                let o = s0[i];
                &&& frac_le(eps_num as int, eps_den as int, s.weight_num as int, s.weight_den as int)
                &&& s.weight_num <= s.weight_den
                &&& ((forall|j: int| 0 <= j < n ==> energy_le(s0, j, i)) ==> s.weight_num == s.weight_den)
            } by {
                let o = s0[i];
                assert(energy_le(s0, mi as int, i) && energy_le(s0, i, xi as int));
                lemma_norm_bounds(o.energy_num as int, o.energy_den as int, ma as int, mb as int, xa as int, xb as int,
                    eps_num as int, eps_den as int);
                if forall|j: int| 0 <= j < n ==> energy_le(s0, j, i) {
                    assert(energy_le(s0, xi as int, i));
                }
            }
            assert forall|i: int| 0 <= i < n implies (#[trigger] self.seeds@[i]).well_formed() by {
                let o = s0[i];
                assert(energy_le(s0, mi as int, i) && energy_le(s0, i, xi as int));
                lemma_norm_bounds(o.energy_num as int, o.energy_den as int, ma as int, mb as int, xa as int, xb as int,
                    eps_num as int, eps_den as int);
            }
        }
    }
}

/// How often `n` takes part in the call triples `ts`.
pub open spec fn occurrences(ts: Seq<(String, String, String)>, n: Seq<char>) -> nat
    decreases ts.len(),
{
    if ts.len() == 0 {
        0
    } else {
        let t = ts.last();
        occurrences(ts.drop_last(), n) + (if t.0@ == n { 1nat } else { 0nat }) + (if t.1@ == n { 1nat } else { 0nat })
            + (if t.2@ == n { 1nat } else { 0nat })
    }
}

/// No seed before seed `i` has its name.
pub open spec fn first_named(s: Seq<Seed>, i: int) -> bool {
    forall|j: int| 0 <= j < i ==> #[trigger] s[j].name@ != s[i].name@
}

proof fn lemma_occurrences_bounded(ts: Seq<(String, String, String)>, n: Seq<char>)
    ensures
        occurrences(ts, n) <= 3 * ts.len(),
    decreases ts.len(),
{
    if ts.len() > 0 {
        lemma_occurrences_bounded(ts.drop_last(), n);
    }
}

impl Schedule {
    /// Adds one unit of energy to the first seed named `name`.
    fn bump(&mut self, name: &String, Ghost(room): Ghost<int>)
        requires
            old(self).well_formed(),
            forall|i: int| 0 <= i < old(self).seeds@.len() ==> (#[trigger] old(self).seeds@[i]).energy_num + room * old(self).seeds@[i].energy_den <= u32::MAX,
            room >= 1,
        ensures
            final(self).well_formed(),
            final(self).exponent == old(self).exponent,
            final(self).loop_count == old(self).loop_count,
            final(self).seeds@.len() == old(self).seeds@.len(),
            forall|i: int| 0 <= i < old(self).seeds@.len() ==> {
                let s = #[trigger] final(self).seeds@[i];
                let o = old(self).seeds@[i];
                &&& s.name == o.name && s.cov_num == o.cov_num && s.cov_den == o.cov_den
                &&& s.exec_count == o.exec_count && s.prompt_count == o.prompt_count
                &&& s.energy_den == o.energy_den && s.weight_num == o.weight_num && s.weight_den == o.weight_den
                &&& s.energy_num == o.energy_num + if o.name@ == name@ && first_named(old(self).seeds@, i) { o.energy_den as int } else { 0 }
            },
    {
        match self.position_of(name.as_str()) {
            Some(i) => {
                let ghost before = self.seeds@;
                assert(before[i as int].energy_num + room * before[i as int].energy_den <= u32::MAX);
                assert(before[i as int].energy_den <= room * before[i as int].energy_den) by (nonlinear_arith)
                    requires
                        room >= 1,
                ;
                let d = self.seeds[i].energy_den;
                self.seeds[i].energy_num = self.seeds[i].energy_num + d;
                assert forall|j: int| 0 <= j < before.len() implies {
                    let s = #[trigger] self.seeds@[j];
                    let o = before[j];
                    s.energy_num == o.energy_num + if o.name@ == name@ && first_named(before, j) { o.energy_den as int } else { 0 }
                } by {
                    if j != i as int && before[j].name@ == name@ && first_named(before, j) {
                        if j > i {
                            assert(before[i as int].name@ == before[j].name@);
                        }
                    }
                    if j == i as int {
                        assert(first_named(before, j));
                    }
                }
                assert forall|j: int| 0 <= j < self.seeds@.len() implies (#[trigger] self.seeds@[j]).well_formed() by {
                    assert(before[j].well_formed());
                }
            },
            None => {},
        }
    }

    /// Rewards every API of each newly seen call triple with one unit of
    /// energy, then renormalises the weights with a floor of 1/100.
    pub fn update_energies_from_api_pairs(&mut self, api_pairs: &Vec<(String, String, String)>)
        requires
            old(self).well_formed(),
            forall|i: int| 0 <= i < old(self).seeds@.len() ==> (#[trigger] old(self).seeds@[i]).energy_num + 3 * api_pairs@.len() * old(self).seeds@[i].energy_den <= u32::MAX,
        ensures
            final(self).well_formed(),
            final(self).exponent == old(self).exponent,
            final(self).loop_count == old(self).loop_count,
            final(self).seeds@.len() == old(self).seeds@.len(),
            api_pairs@.len() == 0 ==> *final(self) == *old(self),
            forall|i: int| 0 <= i < old(self).seeds@.len() ==> {
                let s = #[trigger] final(self).seeds@[i];
                let o = old(self).seeds@[i];
                &&& s.name == o.name
                &&& s.energy_den == o.energy_den
                &&& s.energy_num == o.energy_num + if first_named(old(self).seeds@, i) { occurrences(api_pairs@, o.name@) * o.energy_den } else { 0 }
                &&& api_pairs@.len() > 0 ==> frac_le(1, 100, s.weight_num as int, s.weight_den as int) && s.weight_num <= s.weight_den
            },
            api_pairs@.len() > 0 && old(self).seeds@.len() > 0 ==> exists|mi: int, xi: int| {
                &&& #[trigger] is_min_max(final(self).seeds@, mi, xi)
                &&& forall|i: int| 0 <= i < final(self).seeds@.len() ==> {
                    let s = #[trigger] final(self).seeds@[i];
                    let m = final(self).seeds@[mi];
                    let x = final(self).seeds@[xi];
                    (s.weight_num as int, s.weight_den as int) == norm_weight(
                        s.energy_num as int, s.energy_den as int, m.energy_num as int, m.energy_den as int,
                        x.energy_num as int, x.energy_den as int, 1, 100)
                }
            },
    {
        if api_pairs.len() == 0 {
            assert forall|i: int| 0 <= i < self.seeds@.len() implies #[trigger] self.seeds@[i].energy_num == self.seeds@[i].energy_num
                + if first_named(self.seeds@, i) { occurrences(api_pairs@, self.seeds@[i].name@) * self.seeds@[i].energy_den } else { 0 } by {
                assert(occurrences(api_pairs@, self.seeds@[i].name@) == 0);
            }
            return;
        }
        let ghost s0 = self.seeds@;
        assert(api_pairs@.subrange(0, 0) =~= Seq::<(String, String, String)>::empty());
        assert forall|i: int| 0 <= i < s0.len() implies occurrences(api_pairs@.subrange(0, 0), #[trigger] s0[i].name@) == 0 by {}
        let ghost total = api_pairs@.len();
        let mut t: usize = 0;
        while t < api_pairs.len()
            invariant
                self.well_formed(),
                self.exponent == old(self).exponent,
                self.loop_count == old(self).loop_count,
                s0 == old(self).seeds@,
                self.seeds@.len() == s0.len(),
                total == api_pairs@.len(),
                t <= total,
                forall|i: int| 0 <= i < s0.len() ==> (#[trigger] s0[i]).energy_num + 3 * total * s0[i].energy_den <= u32::MAX,
                forall|i: int| 0 <= i < s0.len() ==> {
                    let s = #[trigger] self.seeds@[i];
                    let o = s0[i];
                    &&& s.name == o.name && s.cov_num == o.cov_num && s.cov_den == o.cov_den
                    &&& s.exec_count == o.exec_count && s.prompt_count == o.prompt_count
                    &&& s.energy_den == o.energy_den
                    &&& s.energy_num == o.energy_num + if first_named(s0, i) { occurrences(api_pairs@.subrange(0, t as int), o.name@) * o.energy_den } else { 0 }
                },
            decreases total - t,
        {
            let ghost room: int = 3 * (total - t);
            let ghost pre = api_pairs@.subrange(0, t as int);
            proof {
                assert forall|i: int| 0 <= i < self.seeds@.len() implies (#[trigger] self.seeds@[i]).energy_num + room * self.seeds@[i].energy_den <= u32::MAX by {
                    let o = s0[i];
                    lemma_occurrences_bounded(pre, o.name@);
                    let occ = occurrences(pre, o.name@);
                    assert(occ * o.energy_den + room * o.energy_den <= 3 * total * o.energy_den) by (nonlinear_arith)
                        requires
                            occ <= 3 * t,
                            room == 3 * (total - t),
                            o.energy_den >= 0,
                    ;
                }
            }
            let ghost sf = self.seeds@;
            self.bump(&api_pairs[t].0, Ghost(room));
            let ghost sa = self.seeds@;
            proof {
                assert forall|i: int| 0 <= i < self.seeds@.len() implies (#[trigger] self.seeds@[i]).energy_num + (room - 1) * self.seeds@[i].energy_den <= u32::MAX by {
                    assert(sf[i].energy_num + room * sf[i].energy_den <= u32::MAX);
                    assert(sa[i].energy_num <= sf[i].energy_num + sf[i].energy_den);
                    assert(sa[i].energy_den == sf[i].energy_den);
                    assert((room - 1) * sf[i].energy_den + sf[i].energy_den == room * sf[i].energy_den) by (nonlinear_arith);
                }
                assert forall|i: int| 0 <= i < sa.len() implies first_named(sa, i) == first_named(sf, i) by {
                    assert forall|j: int| 0 <= j < i implies (sa[j].name@ == sf[j].name@) by {}
                }
            }
            self.bump(&api_pairs[t].1, Ghost(room - 1));
            let ghost sb = self.seeds@;
            proof {
                assert forall|i: int| 0 <= i < self.seeds@.len() implies (#[trigger] self.seeds@[i]).energy_num + (room - 2) * self.seeds@[i].energy_den <= u32::MAX by {
                    assert(sa[i].energy_num + (room - 1) * sa[i].energy_den <= u32::MAX);
                    assert(sb[i].energy_num <= sa[i].energy_num + sa[i].energy_den);
                    assert(sb[i].energy_den == sa[i].energy_den);
                    assert((room - 2) * sa[i].energy_den + sa[i].energy_den == (room - 1) * sa[i].energy_den) by (nonlinear_arith);
                }
                assert forall|i: int| 0 <= i < sb.len() implies first_named(sb, i) == first_named(sf, i) by {
                    assert forall|j: int| 0 <= j < i implies (sb[j].name@ == sf[j].name@) by {}
                }
            }
            self.bump(&api_pairs[t].2, Ghost(room - 2));
            proof {
                let next = api_pairs@.subrange(0, t + 1);
                assert(next.drop_last() =~= pre);
                assert(next.last() == api_pairs@[t as int]);
                assert forall|i: int| 0 <= i < s0.len() implies first_named(sf, i) == first_named(s0, i) by {
                    assert forall|j: int| 0 <= j < i implies (sf[j].name@ == s0[j].name@) by {}
                }
                assert forall|i: int| 0 <= i < s0.len() implies {
                    let s = #[trigger] self.seeds@[i];
                    let o = s0[i];
                    s.energy_num == o.energy_num + if first_named(s0, i) { occurrences(next, o.name@) * o.energy_den } else { 0 }
                } by {
                    let o = s0[i];
                    let occ = occurrences(pre, o.name@);
                    assert(occurrences(next, o.name@) * o.energy_den == occ * o.energy_den
                        + (if api_pairs@[t as int].0@ == o.name@ { 1nat } else { 0nat }) * o.energy_den
                        + (if api_pairs@[t as int].1@ == o.name@ { 1nat } else { 0nat }) * o.energy_den
                        + (if api_pairs@[t as int].2@ == o.name@ { 1nat } else { 0nat }) * o.energy_den) by (nonlinear_arith)
                        requires
                            occurrences(next, o.name@) == occ + (if api_pairs@[t as int].0@ == o.name@ { 1nat } else { 0nat })
                                + (if api_pairs@[t as int].1@ == o.name@ { 1nat } else { 0nat })
                                + (if api_pairs@[t as int].2@ == o.name@ { 1nat } else { 0nat }),
                    ;
                }
            }
            t += 1;
        }
        assert(api_pairs@.subrange(0, total as int) =~= api_pairs@);
        let ghost mid = self.seeds@;
        self.energy_normalization(1, 100);
        proof {
            if mid.len() > 0 {
                let (mi, xi) = choose|mi: int, xi: int| {
                    &&& #[trigger] is_min_max(mid, mi, xi)
                    &&& forall|i: int| 0 <= i < mid.len() ==> {
                        let s = #[trigger] mid[i];
                        let m = mid[mi];
                        let x = mid[xi];
                        (self.seeds@[i].weight_num as int, self.seeds@[i].weight_den as int) == norm_weight(
                            s.energy_num as int, s.energy_den as int, m.energy_num as int, m.energy_den as int,
                            x.energy_num as int, x.energy_den as int, 1, 100)
                    }
                };
                let fin = self.seeds@;
                assert forall|j: int| 0 <= j < fin.len() implies energy_le(fin, mi, j) && energy_le(fin, j, xi) by {
                    assert(energy_le(mid, mi, j) && energy_le(mid, j, xi));
                    assert(fin[j].energy_num == mid[j].energy_num && fin[j].energy_den == mid[j].energy_den);
                    assert(fin[mi].energy_num == mid[mi].energy_num && fin[mi].energy_den == mid[mi].energy_den);
                    assert(fin[xi].energy_num == mid[xi].energy_num && fin[xi].energy_den == mid[xi].energy_den);
                }
                assert(is_min_max(fin, mi, xi));
                assert forall|i: int| 0 <= i < fin.len() implies {
                    let s = #[trigger] fin[i];
                    let m = fin[mi];
                    let x = fin[xi];
                    (s.weight_num as int, s.weight_den as int) == norm_weight(
                        s.energy_num as int, s.energy_den as int, m.energy_num as int, m.energy_den as int,
                        x.energy_num as int, x.energy_den as int, 1, 100)
                } by {
                    let s = mid[i];
                    assert(fin[i].energy_num == mid[i].energy_num && fin[i].energy_den == mid[i].energy_den);
                    assert(fin[mi].energy_num == mid[mi].energy_num && fin[mi].energy_den == mid[mi].energy_den);
                    assert(fin[xi].energy_num == mid[xi].energy_num && fin[xi].energy_den == mid[xi].energy_den);
                }
            }
        }
    }
}

/// Relies on rand's `Rng::gen_range` over the thread-local generator: a
/// number drawn from `0..n`, which must not be empty.
#[verifier::external_body]
fn random_below(n: usize) -> (r: usize)
    requires
        n > 0,
    ensures
        r < n,
{
    rand::thread_rng().gen_range(0..n)
}

/// Some API of `comb` has the name `n`.
pub open spec fn has_name(comb: Seq<FuncGadget>, n: Seq<char>) -> bool {
    exists|x: int| 0 <= x < comb.len() && (#[trigger] comb[x]).name@ == n
}

/// `g` has the name and signature of some API of `gadgets`.
pub open spec fn drawn_from(gadgets: Seq<FuncGadget>, g: FuncGadget) -> bool {
    exists|i: int| 0 <= i < gadgets.len() && gadgets[i].name@ == g.name@ && gadgets[i].signature@ == g.signature@
}

/// A copy of an API descriptor.
fn copy_gadget(g: &FuncGadget) -> (r: FuncGadget)
    ensures
        r.name@ == g.name@,
        r.signature@ == g.signature@,
{
    FuncGadget { name: g.name.clone(), signature: g.signature.clone() }
}

/// Whether some API of `comb` is named `n`.
fn contains_name(comb: &Vec<FuncGadget>, n: &String) -> (r: bool)
    ensures
        r == has_name(comb@, n@),
{
    let mut i: usize = 0;
    while i < comb.len()
        invariant
            i <= comb@.len(),
            forall|x: int| 0 <= x < i ==> (#[trigger] comb@[x]).name@ != n@,
        decreases comb@.len() - i,
    {
        if comb[i].name == *n {
            return true;
        }
        i += 1;
    }
    false
}

/// The positions of the APIs of `gadgets` whose name `comb` does not have
/// yet, in order: the candidates of the next draw.
pub fn available_gadgets(comb: &Vec<FuncGadget>, gadgets: &Vec<FuncGadget>) -> (r: Vec<usize>)
    ensures
        forall|k: int| 0 <= k < r@.len() ==> #[trigger] r@[k] < gadgets@.len() && !has_name(comb@, gadgets@[r@[k] as int].name@),
        forall|j: usize| j < gadgets@.len() && !has_name(comb@, gadgets@[j as int].name@) ==> #[trigger] r@.contains(j),
        forall|a: int, b: int| 0 <= a < b < r@.len() ==> #[trigger] r@[a] < #[trigger] r@[b],
{
    let mut avail: Vec<usize> = Vec::new();
    let mut i: usize = 0;
    while i < gadgets.len()
        invariant
            i <= gadgets@.len(),
            forall|k: int| 0 <= k < avail@.len() ==> #[trigger] avail@[k] < i && !has_name(comb@, gadgets@[avail@[k] as int].name@),
            forall|j: usize| j < i && !has_name(comb@, gadgets@[j as int].name@) ==> #[trigger] avail@.contains(j),
            forall|a: int, b: int| 0 <= a < b < avail@.len() ==> #[trigger] avail@[a] < #[trigger] avail@[b],
        decreases gadgets@.len() - i,
    {
        let ghost a0 = avail@;
        if !contains_name(comb, &gadgets[i].name) {
            avail.push(i);
            assert(avail@[a0.len() as int] == i);
            assert forall|j: usize| j < i + 1 && !has_name(comb@, gadgets@[j as int].name@) implies #[trigger] avail@.contains(j) by {
                if j < i {
                    assert(a0.contains(j));
                    let k = choose|k: int| 0 <= k < a0.len() && a0[k] == j;
                    assert(avail@[k] == j);
                }
            }
        } else {
            assert forall|j: usize| j < i + 1 && !has_name(comb@, gadgets@[j as int].name@) implies #[trigger] avail@.contains(j) by {
                if j < i {
                    assert(a0.contains(j));
                }
            }
        }
        i += 1;
    }
    avail
}

/// Appends the API drawn as candidate `draw` of `avail`.
pub fn take_drawn(comb: &mut Vec<FuncGadget>, gadgets: &Vec<FuncGadget>, avail: &Vec<usize>, draw: usize)
    requires
        draw < avail@.len(),
        avail@[draw as int] < gadgets@.len(),
    ensures
        final(comb)@.len() == old(comb)@.len() + 1,
        final(comb)@.subrange(0, old(comb)@.len() as int) == old(comb)@,
        final(comb)@.last().name@ == gadgets@[avail@[draw as int] as int].name@,
        final(comb)@.last().signature@ == gadgets@[avail@[draw as int] as int].signature@,
{
    let g = copy_gadget(&gadgets[avail[draw]]);
    let ghost c0 = comb@;
    comb.push(g);
    assert(comb@.subrange(0, c0.len() as int) =~= c0);
}

/// A combination of `len` APIs with distinct names, drawn uniformly at
/// random from `gadgets`; fewer when `gadgets` has fewer distinct names.
pub fn rand_choose_combination(gadgets: &Vec<FuncGadget>, len: usize) -> (r: Vec<FuncGadget>)
    ensures
        r@.len() <= len,
        forall|x: int| 0 <= x < r@.len() ==> #[trigger] drawn_from(gadgets@, r@[x]),
        forall|x: int, y: int| 0 <= x < y < r@.len() ==> (#[trigger] r@[x]).name@ != (#[trigger] r@[y]).name@,
        r@.len() < len ==> forall|i: int| 0 <= i < gadgets@.len() ==> has_name(r@, (#[trigger] gadgets@[i]).name@),
{
    let mut comb: Vec<FuncGadget> = Vec::new();
    let mut exhausted = false;
    while comb.len() < len && !exhausted
        invariant
            comb@.len() <= len,
            forall|x: int| 0 <= x < comb@.len() ==> #[trigger] drawn_from(gadgets@, comb@[x]),
            forall|x: int, y: int| 0 <= x < y < comb@.len() ==> (#[trigger] comb@[x]).name@ != (#[trigger] comb@[y]).name@,
            exhausted ==> forall|i: int| 0 <= i < gadgets@.len() ==> has_name(comb@, (#[trigger] gadgets@[i]).name@),
        decreases len - comb@.len(), if exhausted { 0int } else { 1int },
    {
        let avail = available_gadgets(&comb, gadgets);
        if avail.len() == 0 {
            assert forall|i: int| 0 <= i < gadgets@.len() implies has_name(comb@, (#[trigger] gadgets@[i]).name@) by {
                if !has_name(comb@, gadgets@[i].name@) {
                    assert(gadgets@.len() == gadgets.len());
                    assert((i as usize) as int == i);
                    assert(avail@.contains(i as usize));
                }
            }
            exhausted = true;
        } else {
            let k = random_below(avail.len());
            let ghost c0 = comb@;
            let ghost gi = avail@[k as int] as int;
            assert(!has_name(c0, gadgets@[gi].name@));
            take_drawn(&mut comb, gadgets, &avail, k);
            assert forall|x: int| 0 <= x < c0.len() implies comb@[x] == c0[x] by {
                assert(comb@.subrange(0, c0.len() as int)[x] == comb@[x]);
            }
            assert forall|x: int| 0 <= x < comb@.len() implies #[trigger] drawn_from(gadgets@, comb@[x]) by {
                if x < c0.len() {
                    assert(comb@[x] == c0[x]);
                    assert(drawn_from(gadgets@, c0[x]));
                } else {
                    assert(gadgets@[gi].name@ == comb@[x].name@);
                }
            }
            assert forall|x: int, y: int| 0 <= x < y < comb@.len() implies (#[trigger] comb@[x]).name@ != (#[trigger] comb@[y]).name@ by {
                assert(comb@[x] == c0[x]);
                if y == c0.len() {
                    if comb@[x].name@ == comb@[y].name@ {
                        assert(has_name(c0, gadgets@[gi].name@));
                    }
                } else {
                    assert(comb@[y] == c0[y]);
                }
            }
        }
    }
    comb
}
} // verus!
