use vstd::prelude::*;

use crate::dot_product::{
    factor_lt, lemma_sorted_same_factors_equal, non_decreasing, strictly_sorted, ScalarFactor,
};
use crate::tensor_structure::{
    copy_factors, count_kind, lemma_count_kind_concat, lemma_count_kind_le_len,
    lemma_seq_lt_connected, lemma_seq_lt_irreflexive, lemma_seq_lt_transitive, seq_lt,
    TensorStructure,
};
use crate::types::{LegIndex, PolarizationPattern, ScalarKind, Transversality};

verus! {

broadcast use vstd::seq_lib::group_seq_properties;

/// High-level configuration describing which tensors are allowed.
#[derive(Clone, Copy, Debug)]
pub struct GenConfig {
    pub n_legs: u8,
    pub transversality: Transversality,
    pub pol_pattern: PolarizationPattern,
}

impl Default for GenConfig {
    fn default() -> (r: Self)
        ensures
            r.n_legs == 3,
            r.transversality == Transversality::ForbidPiDotEi,
            r.pol_pattern == PolarizationPattern::OnePerLeg,
    {
        GenConfig {
            n_legs: 3,
            transversality: Transversality::ForbidPiDotEi,
            pol_pattern: PolarizationPattern::OnePerLeg,
        }
    }
}

/// Sizes of the three factor catalogs.
#[derive(Clone, Copy, Debug)]
pub struct CatalogCounts {
    pub num_pp: usize,
    pub num_pe: usize,
    pub num_ee: usize,
}

/// `p_a · p_b` is permitted: a pair `a < b` of legs, neither of them the last
/// leg, whose momentum is eliminated.
pub open spec fn pp_allowed(n: int, f: ScalarFactor) -> bool {
    &&& f.kind == ScalarKind::PP
    &&& 1 <= f.a.0 < f.b.0 <= n
    &&& f.a.0 != n
    &&& f.b.0 != n
}

/// `p_a · e_b` is permitted: `a` is not the last leg, `(a, b)` is not
/// `(1, n)`, and `a != b` when self-dots are forbidden.
pub open spec fn pe_allowed(cfg: GenConfig, f: ScalarFactor) -> bool {
    let n = cfg.n_legs as int;
    &&& f.kind == ScalarKind::PE
    &&& 1 <= f.a.0 <= n
    &&& 1 <= f.b.0 <= n
    &&& f.a.0 != n
    &&& !(cfg.transversality == Transversality::ForbidPiDotEi && f.a.0 == f.b.0)
    &&& !(f.a.0 == 1 && f.b.0 == n)
}

/// `e_a · e_b` is permitted: any pair `a < b` of legs.
pub open spec fn ee_allowed(n: int, f: ScalarFactor) -> bool {
    &&& f.kind == ScalarKind::EE
    &&& 1 <= f.a.0 < f.b.0 <= n
}

/// `f` belongs to one of the three catalogs.
pub open spec fn factor_allowed(cfg: GenConfig, f: ScalarFactor) -> bool {
    pp_allowed(cfg.n_legs as int, f) || pe_allowed(cfg, f) || ee_allowed(cfg.n_legs as int, f)
}

/// Builds the three catalogs of permitted factors, each strictly increasing
/// in the canonical order and holding exactly the permitted factors of its
/// kind.
pub fn generate_valid_factors(cfg: &GenConfig) -> (r: (
    Vec<ScalarFactor>,
    Vec<ScalarFactor>,
    Vec<ScalarFactor>,
))
    ensures
        strictly_sorted(r.0@),
        strictly_sorted(r.1@),
        strictly_sorted(r.2@),
        forall|f: ScalarFactor| r.0@.contains(f) <==> pp_allowed(cfg.n_legs as int, f),
        forall|f: ScalarFactor| r.1@.contains(f) <==> pe_allowed(*cfg, f),
        forall|f: ScalarFactor| r.2@.contains(f) <==> ee_allowed(cfg.n_legs as int, f),
{
    let n: u16 = cfg.n_legs as u16;
    let mut pp: Vec<ScalarFactor> = Vec::new();
    let mut pe: Vec<ScalarFactor> = Vec::new();
    let mut ee: Vec<ScalarFactor> = Vec::new();

    // PP factors: none involves the momentum of the last leg.
    let mut i: u16 = 1;
    while i <= n
        invariant
            n == cfg.n_legs,
            1 <= i <= n + 1,
            strictly_sorted(pp@),
            forall|k: int| 0 <= k < pp@.len() ==> (#[trigger] pp@[k]).kind == ScalarKind::PP,
            forall|k: int| 0 <= k < pp@.len() ==> (#[trigger] pp@[k]).a.0 < i,
            forall|f: ScalarFactor| pp@.contains(f) <==> (pp_allowed(cfg.n_legs as int, f) && f.a.0 < i),
        decreases n + 1 - i,
    {
        let mut j: u16 = i + 1;
        while j <= n
            invariant
                n == cfg.n_legs,
                1 <= i <= n,
                i + 1 <= j <= n + 1,
                strictly_sorted(pp@),
                forall|k: int| 0 <= k < pp@.len() ==> (#[trigger] pp@[k]).kind == ScalarKind::PP,
            forall|k: int| 0 <= k < pp@.len() ==> (#[trigger] pp@[k]).kind == ScalarKind::PP,
                forall|k: int|
                    0 <= k < pp@.len() ==> (#[trigger] pp@[k]).a.0 < i || (pp@[k].a.0 == i
                        && pp@[k].b.0 < j),
                forall|f: ScalarFactor|
                    pp@.contains(f) <==> (pp_allowed(cfg.n_legs as int, f) && (f.a.0 < i || (f.a.0 == i
                        && f.b.0 < j))),
            decreases n + 1 - j,
        {
            if i != n && j != n {
                let f = ScalarFactor::pp(LegIndex(i as u8), LegIndex(j as u8));
                proof {
                    assert(forall|k: int| 0 <= k < pp@.len() ==> (#[trigger] pp@[k]).key() < f.key());
                }
                pp.push(f);
            }
            j = j + 1;
        }
        i = i + 1;
    }

    // PE factors: the last leg's momentum is eliminated, and so is p_1 · e_n.
    let forbid = match cfg.transversality {
        Transversality::ForbidPiDotEi => true,
        Transversality::NoConstraint => false,
    };
    let mut i: u16 = 1;
    while i <= n
        invariant
            n == cfg.n_legs,
            forbid == (cfg.transversality == Transversality::ForbidPiDotEi),
            1 <= i <= n + 1,
            strictly_sorted(pe@),
            forall|k: int| 0 <= k < pe@.len() ==> (#[trigger] pe@[k]).kind == ScalarKind::PE,
            forall|k: int| 0 <= k < pe@.len() ==> (#[trigger] pe@[k]).a.0 < i,
            forall|f: ScalarFactor| pe@.contains(f) <==> (pe_allowed(*cfg, f) && f.a.0 < i),
        decreases n + 1 - i,
    {
        if i != n {
            let mut j: u16 = 1;
            while j <= n
                invariant
                    n == cfg.n_legs,
                    forbid == (cfg.transversality == Transversality::ForbidPiDotEi),
                    1 <= i < n,
                    1 <= j <= n + 1,
                    strictly_sorted(pe@),
                    forall|k: int| 0 <= k < pe@.len() ==> (#[trigger] pe@[k]).kind == ScalarKind::PE,
                forall|k: int| 0 <= k < pe@.len() ==> (#[trigger] pe@[k]).kind == ScalarKind::PE,
            forall|k: int| 0 <= k < pe@.len() ==> (#[trigger] pe@[k]).kind == ScalarKind::PE,
                    forall|k: int|
                        0 <= k < pe@.len() ==> (#[trigger] pe@[k]).a.0 < i || (pe@[k].a.0 == i
                            && pe@[k].b.0 < j),
                    forall|f: ScalarFactor|
                        pe@.contains(f) <==> (pe_allowed(*cfg, f) && (f.a.0 < i || (f.a.0 == i
                            && f.b.0 < j))),
                decreases n + 1 - j,
            {
                if !(forbid && i == j) && !(j == n && i == 1) {
                    let f = ScalarFactor::pe(LegIndex(i as u8), LegIndex(j as u8));
                    proof {
                        assert(forall|k: int| 0 <= k < pe@.len() ==> (#[trigger] pe@[k]).key() < f.key());
                    }
                    pe.push(f);
                }
                j = j + 1;
            }
        }
        i = i + 1;
    }

    // EE factors: every pair of legs.
    let mut i: u16 = 1;
    while i <= n
        invariant
            n == cfg.n_legs,
            1 <= i <= n + 1,
            strictly_sorted(ee@),
            forall|k: int| 0 <= k < ee@.len() ==> (#[trigger] ee@[k]).kind == ScalarKind::EE,
            forall|k: int| 0 <= k < ee@.len() ==> (#[trigger] ee@[k]).a.0 < i,
            forall|f: ScalarFactor| ee@.contains(f) <==> (ee_allowed(cfg.n_legs as int, f) && f.a.0 < i),
        decreases n + 1 - i,
    {
        let mut j: u16 = i + 1;
        while j <= n
            invariant
                n == cfg.n_legs,
                1 <= i <= n,
                i + 1 <= j <= n + 1,
                strictly_sorted(ee@),
                forall|k: int| 0 <= k < ee@.len() ==> (#[trigger] ee@[k]).kind == ScalarKind::EE,
            forall|k: int| 0 <= k < ee@.len() ==> (#[trigger] ee@[k]).kind == ScalarKind::EE,
                forall|k: int|
                    0 <= k < ee@.len() ==> (#[trigger] ee@[k]).a.0 < i || (ee@[k].a.0 == i
                        && ee@[k].b.0 < j),
                forall|f: ScalarFactor|
                    ee@.contains(f) <==> (ee_allowed(cfg.n_legs as int, f) && (f.a.0 < i || (f.a.0 == i
                        && f.b.0 < j))),
            decreases n + 1 - j,
        {
            let f = ScalarFactor::ee(LegIndex(i as u8), LegIndex(j as u8));
            proof {
                assert(forall|k: int| 0 <= k < ee@.len() ==> (#[trigger] ee@[k]).key() < f.key());
            }
            ee.push(f);
            j = j + 1;
        }
        i = i + 1;
    }

    (pp, pe, ee)
}

/// How many times factor `f` uses the polarization of leg `r`.
pub open spec fn factor_touches(f: ScalarFactor, r: int) -> nat {
    match f.kind {
        ScalarKind::PP => 0,
        ScalarKind::PE => if f.b.0 == r {
            1
        } else {
            0
        },
        ScalarKind::EE => (if f.a.0 == r {
            1nat
        } else {
            0nat
        }) + (if f.b.0 == r {
            1nat
        } else {
            0nat
        }),
    }
}

/// How many times the factors of `s` use the polarization of leg `r`.
pub open spec fn touches(s: Seq<ScalarFactor>, r: int) -> nat
    decreases s.len(),
{
    if s.len() == 0 {
        0
    } else {
        touches(s.drop_last(), r) + factor_touches(s.last(), r)
    }
}

/// Total number of polarization uses: two per `EE` factor, one per `PE`.
pub open spec fn pol_uses(s: Seq<ScalarFactor>) -> nat {
    2 * count_kind(s, ScalarKind::EE) + count_kind(s, ScalarKind::PE)
}

/// Each of the legs `1..=n` has its polarization used exactly once, and
/// there are exactly `n` uses in all.
pub open spec fn one_pol_per_leg(n: nat, s: Seq<ScalarFactor>) -> bool {
    &&& forall|r: int| 1 <= r <= n ==> #[trigger] touches(s, r) == 1
    &&& pol_uses(s) == n
}

/// `s` is one of the structures that generation yields for `cfg`, `degree`
/// and `ee`: a strictly increasing product of `degree` permitted factors,
/// `ee` of them of kind `EE`, meeting the polarization pattern.
pub open spec fn is_generated(cfg: GenConfig, degree: nat, ee: nat, s: Seq<ScalarFactor>) -> bool {
    &&& degree > 0
    &&& s.len() == degree
    &&& strictly_sorted(s)
    &&& forall|i: int| 0 <= i < s.len() ==> factor_allowed(cfg, #[trigger] s[i])
    &&& count_kind(s, ScalarKind::EE) == ee
    &&& cfg.pol_pattern == PolarizationPattern::OnePerLeg ==> one_pol_per_leg(
        cfg.n_legs as nat,
        s,
    )
}

/// The factor sequences of a list of structures.
pub open spec fn factor_seqs(v: Seq<TensorStructure>) -> Seq<Seq<ScalarFactor>> {
    v.map_values(|t: TensorStructure| t.factors@)
}

/// Each sequence comes strictly before the next in the structure order.
pub open spec fn strictly_ordered(v: Seq<Seq<ScalarFactor>>) -> bool {
    forall|i: int, j: int| 0 <= i < j < v.len() ==> seq_lt(#[trigger] v[i], #[trigger] v[j])
}

/// `s` starts with `p`.
pub open spec fn extends(p: Seq<ScalarFactor>, s: Seq<ScalarFactor>) -> bool {
    p.len() <= s.len() && s.subrange(0, p.len() as int) == p
}

/// Polarization uses add up over a concatenation.
pub proof fn lemma_touches_concat(p: Seq<ScalarFactor>, q: Seq<ScalarFactor>, r: int)
    ensures
        touches(p + q, r) == touches(p, r) + touches(q, r),
    decreases q.len(),
{
    if q.len() > 0 {
        assert((p + q).drop_last() =~= p + q.drop_last());
        lemma_touches_concat(p, q.drop_last(), r);
    } else {
        assert(p + q =~= p);
    }
}

/// A factor uses a leg's polarization at most twice.
pub proof fn lemma_touches_bound(s: Seq<ScalarFactor>, r: int)
    ensures
        touches(s, r) <= 2 * s.len(),
    decreases s.len(),
{
    if s.len() > 0 {
        lemma_touches_bound(s.drop_last(), r);
    }
}

/// An extension of `p` is `p` followed by the rest, so its counts are at
/// least those of `p`.
proof fn lemma_extension_counts(p: Seq<ScalarFactor>, s: Seq<ScalarFactor>)
    requires
        extends(p, s),
    ensures
        forall|k: ScalarKind| count_kind(s, k) >= #[trigger] count_kind(p, k),
        forall|r: int| touches(s, r) >= #[trigger] touches(p, r),
        s.len() == p.len() ==> s == p,
{
    let q = s.skip(p.len() as int);
    assert(s =~= p + q);
    assert forall|k: ScalarKind| count_kind(s, k) >= #[trigger] count_kind(p, k) by {
        lemma_count_kind_concat(p, q, k);
    }
    assert forall|r: int| touches(s, r) >= #[trigger] touches(p, r) by {
        lemma_touches_concat(p, q, r);
    }
}

/// Extending `p` by `c` means extending `p` with `c` at the next position.
proof fn lemma_extends_push(p: Seq<ScalarFactor>, c: ScalarFactor, s: Seq<ScalarFactor>)
    ensures
        extends(p.push(c), s) == (extends(p, s) && s.len() > p.len() && s[p.len() as int] == c),
{
    if extends(p.push(c), s) {
        assert(s.subrange(0, p.len() as int) =~= p.push(c).subrange(0, p.len() as int));
        assert(p.push(c).subrange(0, p.len() as int) =~= p);
        assert(s[p.len() as int] == s.subrange(0, p.len() as int + 1)[p.len() as int]);
    }
    if extends(p, s) && s.len() > p.len() && s[p.len() as int] == c {
        assert(s.subrange(0, p.len() as int + 1) =~= p.push(c));
    }
}

/// Number of legs in `1..=k` whose polarization `s` does not use.
pub open spec fn unused_legs(s: Seq<ScalarFactor>, k: int) -> nat
    decreases k,
{
    if k <= 0 {
        0
    } else {
        unused_legs(s, k - 1) + if touches(s, k) == 0 {
            1nat
        } else {
            0nat
        }
    }
}

/// Number of legs in `1..=k` that `f` can newly cover: its polarization
/// legs that lie in range.
spec fn legs_hit(f: ScalarFactor, k: int) -> nat {
    (if f.kind == ScalarKind::EE && 1 <= f.a.0 <= k {
        1nat
    } else {
        0nat
    }) + (if f.kind != ScalarKind::PP && 1 <= f.b.0 <= k {
        1nat
    } else {
        0nat
    })
}

/// Appending one factor makes at most two more legs used.
proof fn lemma_unused_push(s: Seq<ScalarFactor>, f: ScalarFactor, k: int)
    ensures
        unused_legs(s, k) <= unused_legs(s.push(f), k) + legs_hit(f, k),
    decreases k,
{
    if k > 0 {
        lemma_unused_push(s, f, k - 1);
        assert(s.push(f).drop_last() =~= s);
        assert(touches(s.push(f), k) == touches(s, k) + factor_touches(f, k));
    }
}

/// Appending `q` makes at most `2 * q.len()` more legs used.
proof fn lemma_unused_extension(p: Seq<ScalarFactor>, q: Seq<ScalarFactor>, k: int)
    ensures
        unused_legs(p, k) <= unused_legs(p + q, k) + 2 * q.len(),
    decreases q.len(),
{
    if q.len() == 0 {
        assert(p + q =~= p);
    } else {
        let q0 = q.drop_last();
        lemma_unused_extension(p, q0, k);
        assert(p + q =~= (p + q0).push(q.last()));
        lemma_unused_push(p + q0, q.last(), k);
    }
}

/// With every leg used exactly once, no leg is unused.
proof fn lemma_unused_none(s: Seq<ScalarFactor>, n: int, k: int)
    requires
        k <= n,
        forall|r: int| 1 <= r <= n ==> #[trigger] touches(s, r) == 1,
    ensures
        unused_legs(s, k) == 0,
    decreases k,
{
    if k > 0 {
        lemma_unused_none(s, n, k - 1);
    }
}

/// Two strictly ordered lists holding the same sequences are equal.
pub proof fn lemma_strictly_ordered_unique(x: Seq<Seq<ScalarFactor>>, y: Seq<Seq<ScalarFactor>>)
    requires
        strictly_ordered(x),
        strictly_ordered(y),
        forall|s: Seq<ScalarFactor>| x.contains(s) <==> y.contains(s),
    ensures
        x == y,
    decreases x.len(),
{
    if x.len() == 0 {
        if y.len() > 0 {
            assert(y.contains(y[0]));
        }
        assert(x =~= y);
    } else if y.len() == 0 {
        assert(x.contains(x[0]));
    } else {
        assert(x.contains(x[0]));
        assert(y.contains(y[0]));
        let i = choose|i: int| 0 <= i < y.len() && y[i] == x[0];
        let j = choose|j: int| 0 <= j < x.len() && x[j] == y[0];
        if i > 0 {
            assert(seq_lt(y[0], y[i]));
            if j > 0 {
                assert(seq_lt(x[0], x[j]));
                lemma_seq_lt_transitive(x[0], y[0], x[0]);
                lemma_seq_lt_irreflexive(x[0]);
            } else {
                lemma_seq_lt_irreflexive(x[0]);
            }
        }
        assert(x[0] == y[0]);
        let xt = x.drop_first();
        let yt = y.drop_first();
        assert forall|s: Seq<ScalarFactor>| xt.contains(s) <==> yt.contains(s) by {
            if xt.contains(s) {
                let k = choose|k: int| 0 <= k < xt.len() && xt[k] == s;
                assert(seq_lt(x[0], x[k + 1]));
                lemma_seq_lt_irreflexive(s);
                assert(y.contains(s));
                let m = choose|m: int| 0 <= m < y.len() && y[m] == s;
                assert(m != 0);
                assert(yt[m - 1] == s);
            }
            if yt.contains(s) {
                let k = choose|k: int| 0 <= k < yt.len() && yt[k] == s;
                assert(seq_lt(y[0], y[k + 1]));
                lemma_seq_lt_irreflexive(s);
                assert(x.contains(s));
                let m = choose|m: int| 0 <= m < x.len() && x[m] == s;
                assert(m != 0);
                assert(xt[m - 1] == s);
            }
        }
        lemma_strictly_ordered_unique(xt, yt);
        assert(x =~= seq![x[0]] + xt);
        assert(y =~= seq![y[0]] + yt);
    }
}

/// Counts each polarization use of `f` on its leg.
fn add_polarizations(pc: &mut Vec<u64>, f: &ScalarFactor)
    requires
        f.kind != ScalarKind::PP ==> f.b.0 < old(pc)@.len(),
        f.kind == ScalarKind::EE ==> f.a.0 < old(pc)@.len(),
        forall|r: int| 0 <= r < old(pc)@.len() ==> #[trigger] old(pc)@[r] + 2 <= u64::MAX,
    ensures
        final(pc)@.len() == old(pc)@.len(),
        forall|r: int|
            0 <= r < old(pc)@.len() ==> #[trigger] final(pc)@[r] == old(pc)@[r] + factor_touches(
                *f,
                r,
            ),
{
    match f.kind {
        ScalarKind::PE => {
            let b = f.b.0 as usize;
            pc.set(b, pc[b] + 1);
        },
        ScalarKind::EE => {
            let a = f.a.0 as usize;
            pc.set(a, pc[a] + 1);
            let b = f.b.0 as usize;
            pc.set(b, pc[b] + 1);
        },
        ScalarKind::PP => {},
    }
}

/// Takes back the polarization uses of `f`.
fn remove_polarizations(pc: &mut Vec<u64>, f: &ScalarFactor)
    requires
        f.kind != ScalarKind::PP ==> f.b.0 < old(pc)@.len(),
        f.kind == ScalarKind::EE ==> f.a.0 < old(pc)@.len(),
        forall|r: int| 0 <= r < old(pc)@.len() ==> #[trigger] old(pc)@[r] >= factor_touches(*f, r),
    ensures
        final(pc)@.len() == old(pc)@.len(),
        forall|r: int|
            0 <= r < old(pc)@.len() ==> #[trigger] final(pc)@[r] == old(pc)@[r] - factor_touches(
                *f,
                r,
            ),
{
    match f.kind {
        ScalarKind::PE => {
            let b = f.b.0 as usize;
            pc.set(b, pc[b] - 1);
        },
        ScalarKind::EE => {
            let a = f.a.0 as usize;
            pc.set(a, pc[a] - 1);
            let b = f.b.0 as usize;
            pc.set(b, pc[b] - 1);
        },
        ScalarKind::PP => {},
    }
}

/// Some leg in `1..=n` has its polarization used more than once.
fn any_leg_overused(pc: &Vec<u64>, n: u8) -> (r: bool)
    requires
        pc@.len() == n + 1,
    ensures
        r == exists|k: int| 1 <= k <= n && #[trigger] pc@[k] > 1,
{
    let mut k: usize = 1;
    while k <= n as usize
        invariant
            pc@.len() == n + 1,
            1 <= k <= n + 1,
            forall|m: int| 1 <= m < k ==> #[trigger] pc@[m] <= 1,
        decreases n + 1 - k,
    {
        if pc[k] > 1 {
            return true;
        }
        k = k + 1;
    }
    false
}

/// Number of legs in `1..=n` whose polarization is not used yet.
fn count_unused(pc: &Vec<u64>, n: u8, p: Ghost<Seq<ScalarFactor>>) -> (r: u64)
    requires
        pc@.len() == n + 1,
        forall|k: int| 0 <= k <= n ==> #[trigger] pc@[k] == touches(p@, k),
    ensures
        r == unused_legs(p@, n as int),
{
    let mut cnt: u64 = 0;
    let mut k: usize = 1;
    while k <= n as usize
        invariant
            pc@.len() == n + 1,
            forall|m: int| 0 <= m <= n ==> #[trigger] pc@[m] == touches(p@, m),
            1 <= k <= n + 1,
            cnt == unused_legs(p@, k - 1),
            cnt < k,
        decreases n + 1 - k,
    {
        if pc[k] == 0 {
            cnt = cnt + 1;
        }
        k = k + 1;
    }
    cnt
}

/// Every leg in `1..=n` has its polarization used exactly once.
fn every_leg_once(pc: &Vec<u64>, n: u8) -> (r: bool)
    requires
        pc@.len() == n + 1,
    ensures
        r == forall|k: int| 1 <= k <= n ==> #[trigger] pc@[k] == 1,
{
    let mut k: usize = 1;
    while k <= n as usize
        invariant
            pc@.len() == n + 1,
            1 <= k <= n + 1,
            forall|m: int| 1 <= m < k ==> #[trigger] pc@[m] == 1,
        decreases n + 1 - k,
    {
        if pc[k] != 1 {
            return false;
        }
        k = k + 1;
    }
    true
}

/// Inserts `t` into a strictly ordered list, unless a structure with the
/// same factors is already there.
fn insert_sorted(out: &mut Vec<TensorStructure>, t: TensorStructure)
    requires
        strictly_ordered(factor_seqs(old(out)@)),
    ensures
        strictly_ordered(factor_seqs(final(out)@)),
        forall|x: Seq<ScalarFactor>|
            #[trigger] factor_seqs(final(out)@).contains(x) <==> (factor_seqs(old(out)@).contains(x)
                || x == t.factors@),
        forall|k: int|
            0 <= k < final(out)@.len() ==> (#[trigger] final(out)@[k] == t || old(out)@.contains(
                final(out)@[k],
            )),
{
    let ghost v = factor_seqs(out@);
    let mut i: usize = 0;
    while i < out.len() && out[i].precedes(&t)
        invariant
            0 <= i <= out@.len(),
            v == factor_seqs(out@),
            strictly_ordered(v),
            forall|k: int| 0 <= k < i ==> seq_lt(#[trigger] v[k], t.factors@),
        decreases out.len() - i,
    {
        i = i + 1;
    }
    if i < out.len() && !t.precedes(&out[i]) {
        proof {
            if v[i as int] != t.factors@ {
                lemma_seq_lt_connected(v[i as int], t.factors@);
            }
            assert(v[i as int] == t.factors@);
        }
        return;
    }
    proof {
        if i < out.len() {
            if v[i as int] == t.factors@ {
                lemma_seq_lt_irreflexive(t.factors@);
            }
            lemma_seq_lt_connected(v[i as int], t.factors@);
        }
    }
    let ghost old_out = out@;
    out.insert(i, t);
    proof {
        let w = factor_seqs(out@);
        assert(w =~= v.insert(i as int, t.factors@));
        assert forall|a: int, b: int| 0 <= a < b < w.len() implies seq_lt(
            #[trigger] w[a],
            #[trigger] w[b],
        ) by {
            if b < i {
            } else if a < i && b == i {
            } else if a < i {
                lemma_seq_lt_transitive(v[a], t.factors@, v[i as int]);
                if b > i + 1 {
                    lemma_seq_lt_transitive(v[a], v[i as int], v[b - 1]);
                }
            } else if a == i {
                if b > i + 1 {
                    lemma_seq_lt_transitive(t.factors@, v[i as int], v[b - 1]);
                }
            } else {
            }
        }
        assert forall|x: Seq<ScalarFactor>| #[trigger] w.contains(x) <==> (v.contains(x)
            || x == t.factors@) by {
            if w.contains(x) {
                let k = choose|k: int| 0 <= k < w.len() && w[k] == x;
                if k < i {
                    assert(v[k] == x);
                } else if k > i {
                    assert(v[k - 1] == x);
                }
            }
            if v.contains(x) {
                let k = choose|k: int| 0 <= k < v.len() && v[k] == x;
                if k < i {
                    assert(w[k] == x);
                } else {
                    assert(w[k + 1] == x);
                }
            }
            if x == t.factors@ {
                assert(w[i as int] == x);
            }
        }
        assert forall|k: int| 0 <= k < out@.len() implies (#[trigger] out@[k] == t
            || old_out.contains(out@[k])) by {
            if k < i {
                assert(old_out[k] == out@[k]);
            } else if k > i {
                assert(old_out[k - 1] == out@[k]);
            }
        }
    }
}

/// Search state: the partial structure and its running counts.
struct DfsState {
    target_deg: u32,
    ee_needed: u32,
    nlegs: u8,
    enforce_one_pol: bool,
    cur: TensorStructure,
    pe_so_far: u32,
    pol_count: Vec<u64>,
}

impl DfsState {
    /// The counts agree with the partial structure, which is a strictly
    /// increasing choice of catalog entries ending just before `start`.
    spec fn inv(self, cfg: GenConfig, cat: Seq<ScalarFactor>, start: int) -> bool {
        let p = self.cur.factors@;
        &&& self.nlegs == cfg.n_legs
        &&& self.enforce_one_pol == (cfg.pol_pattern == PolarizationPattern::OnePerLeg)
        &&& self.target_deg > 0
        &&& strictly_sorted(cat)
        &&& forall|f: ScalarFactor| cat.contains(f) <==> factor_allowed(cfg, f)
        &&& 0 <= start <= cat.len()
        &&& self.cur.wf()
        &&& self.pe_so_far == count_kind(p, ScalarKind::PE)
        &&& self.pol_count@.len() == self.nlegs + 1
        &&& forall|r: int|
            0 <= r <= self.nlegs ==> #[trigger] self.pol_count@[r] == touches(p, r)
        &&& strictly_sorted(p)
        &&& forall|i: int| 0 <= i < p.len() ==> factor_allowed(cfg, #[trigger] p[i])
        &&& p.len() <= self.target_deg
        &&& p.len() <= start
        &&& p.len() == 0 ==> start == 0
        &&& p.len() > 0 ==> p.last() == cat[start - 1]
    }
}

/// Adds to `out` every generated structure that extends the partial
/// structure with catalog entries from `idx_start` on, and restores the
/// search state.
fn dfs_emit(
    s: &mut DfsState,
    idx_start: usize,
    out: &mut Vec<TensorStructure>,
    catalog: &Vec<ScalarFactor>,
    cfg: Ghost<GenConfig>,
)
    requires
        old(s).inv(cfg@, catalog@, idx_start as int),
        strictly_ordered(factor_seqs(old(out)@)),
        forall|k: int| 0 <= k < old(out)@.len() ==> (#[trigger] old(out)@[k]).wf(),
    ensures
        final(s).inv(cfg@, catalog@, idx_start as int),
        final(s).cur.factors@ == old(s).cur.factors@,
        final(s).target_deg == old(s).target_deg,
        final(s).ee_needed == old(s).ee_needed,
        strictly_ordered(factor_seqs(final(out)@)),
        forall|k: int| 0 <= k < final(out)@.len() ==> (#[trigger] final(out)@[k]).wf(),
        forall|x: Seq<ScalarFactor>|
            #[trigger] factor_seqs(final(out)@).contains(x) <==> (factor_seqs(old(out)@).contains(x)
                || (is_generated(cfg@, old(s).target_deg as nat, old(s).ee_needed as nat, x)
                && extends(old(s).cur.factors@, x))),
    decreases catalog@.len() - idx_start, 1nat,
{
    let ghost p = s.cur.factors@;
    let ghost d = s.target_deg as nat;
    let ghost e = s.ee_needed as nat;
    let ghost n = s.nlegs as nat;
    let deg_so_far = s.cur.factors.len();
    let ee_so_far = s.cur.ee_contractions;

    if deg_so_far as u64 > s.target_deg as u64 || ee_so_far > s.ee_needed {
        proof {
            assert forall|x: Seq<ScalarFactor>| !(is_generated(cfg@, d, e, x) && extends(p, x)) by {
                if extends(p, x) {
                    lemma_extension_counts(p, x);
                    assert(count_kind(x, ScalarKind::EE) >= count_kind(p, ScalarKind::EE));
                }
            }
        }
        return;
    }

    if s.enforce_one_pol {
        if any_leg_overused(&s.pol_count, s.nlegs) {
            proof {
                let k = choose|k: int| 1 <= k <= n && #[trigger] s.pol_count@[k] > 1;
                assert forall|x: Seq<ScalarFactor>| !(is_generated(cfg@, d, e, x) && extends(p, x)) by {
                    if extends(p, x) {
                        lemma_extension_counts(p, x);
                        assert(touches(x, k) >= touches(p, k));
                    }
                }
            }
            return;
        }
        let remain: u64 = (s.target_deg as u64) - (deg_so_far as u64);
        let missing = count_unused(&s.pol_count, s.nlegs, Ghost(p));
        if remain * 2 < missing {
            proof {
                assert forall|x: Seq<ScalarFactor>| !(is_generated(cfg@, d, e, x) && extends(p, x)) by {
                    if is_generated(cfg@, d, e, x) && extends(p, x) {
                        let q = x.skip(p.len() as int);
                        assert(x =~= p + q);
                        lemma_unused_extension(p, q, n as int);
                        lemma_unused_none(x, n as int, n as int);
                    }
                }
            }
            return;
        }
        let pol_so_far: u64 = 2 * (ee_so_far as u64) + s.pe_so_far as u64;
        if pol_so_far > s.nlegs as u64 {
            proof {
                assert forall|x: Seq<ScalarFactor>| !(is_generated(cfg@, d, e, x) && extends(p, x)) by {
                    if extends(p, x) {
                        lemma_extension_counts(p, x);
                        assert(count_kind(x, ScalarKind::EE) >= count_kind(p, ScalarKind::EE));
                        assert(count_kind(x, ScalarKind::PE) >= count_kind(p, ScalarKind::PE));
                    }
                }
            }
            return;
        }
    }

    if deg_so_far as u64 == s.target_deg as u64 {
        proof {
            assert forall|x: Seq<ScalarFactor>| extends(p, x) && is_generated(cfg@, d, e, x) implies x == p by {
                lemma_extension_counts(p, x);
            }
        }
        if ee_so_far == s.ee_needed {
            let accept = if !s.enforce_one_pol {
                true
            } else {
                let pol_total: u64 = 2 * (ee_so_far as u64) + s.pe_so_far as u64;
                pol_total == s.nlegs as u64 && every_leg_once(&s.pol_count, s.nlegs)
            };
            proof {
                assert(p.subrange(0, p.len() as int) =~= p);
                if s.enforce_one_pol {
                    if forall|k: int| 1 <= k <= n ==> #[trigger] s.pol_count@[k] == 1 {
                        assert forall|r: int| 1 <= r <= n implies #[trigger] touches(p, r) == 1 by {
                            assert(s.pol_count@[r] == touches(p, r));
                        }
                    }
                    if one_pol_per_leg(n, p) {
                        assert forall|r: int| 1 <= r <= n implies #[trigger] s.pol_count@[r] == 1 by {
                            assert(touches(p, r) == 1);
                        }
                    }
                }
                assert(accept == is_generated(cfg@, d, e, p));
            }
            if accept {
                let mut t = TensorStructure {
                    factors: copy_factors(&s.cur.factors),
                    ee_contractions: s.cur.ee_contractions,
                };
                t.canonicalize();
                proof {
                    assert(non_decreasing(p));
                    lemma_sorted_same_factors_equal(t.factors@, p);
                }
                insert_sorted(out, t);
            }
        }
        return;
    }
    proof {
        assert forall|x: Seq<ScalarFactor>| extends(p, x) && is_generated(cfg@, d, e, x) implies x.len() > p.len() by {
            lemma_extension_counts(p, x);
        }
    }
    dfs_branch(s, idx_start, out, catalog, cfg);
}

/// The branching step of the search: tries each catalog entry from
/// `idx_start` on as the next factor.
fn dfs_branch(
    s: &mut DfsState,
    idx_start: usize,
    out: &mut Vec<TensorStructure>,
    catalog: &Vec<ScalarFactor>,
    cfg: Ghost<GenConfig>,
)
    requires
        old(s).inv(cfg@, catalog@, idx_start as int),
        old(s).cur.factors@.len() < old(s).target_deg,
        strictly_ordered(factor_seqs(old(out)@)),
        forall|k: int| 0 <= k < old(out)@.len() ==> (#[trigger] old(out)@[k]).wf(),
    ensures
        final(s).inv(cfg@, catalog@, idx_start as int),
        final(s).cur.factors@ == old(s).cur.factors@,
        final(s).target_deg == old(s).target_deg,
        final(s).ee_needed == old(s).ee_needed,
        strictly_ordered(factor_seqs(final(out)@)),
        forall|k: int| 0 <= k < final(out)@.len() ==> (#[trigger] final(out)@[k]).wf(),
        forall|x: Seq<ScalarFactor>|
            #[trigger] factor_seqs(final(out)@).contains(x) <==> (factor_seqs(old(out)@).contains(x)
                || (is_generated(cfg@, old(s).target_deg as nat, old(s).ee_needed as nat, x)
                && extends(old(s).cur.factors@, x) && x.len() > old(s).cur.factors@.len())),
    decreases catalog@.len() - idx_start, 0nat,
{
    let ghost p = s.cur.factors@;
    let ghost d = s.target_deg as nat;
    let ghost e = s.ee_needed as nat;
    let ghost out0 = factor_seqs(out@);
    let ghost plen = p.len() as int;
    let mut i: usize = idx_start;
    while i < catalog.len()
        invariant
            idx_start <= i <= catalog@.len(),
            s.inv(cfg@, catalog@, idx_start as int),
            s.cur.factors@ == p,
            s.target_deg == d,
            s.ee_needed == e,
            plen == p.len(),
            p.len() < d,
            strictly_ordered(factor_seqs(out@)),
            forall|k: int| 0 <= k < out@.len() ==> (#[trigger] out@[k]).wf(),
            forall|x: Seq<ScalarFactor>|
                #[trigger] factor_seqs(out@).contains(x) <==> (out0.contains(x) || (is_generated(
                    cfg@,
                    d,
                    e,
                    x,
                ) && extends(p, x) && x.len() > plen && exists|m: int|
                    idx_start <= m < i && #[trigger] catalog@[m] == x[plen])),
        decreases catalog.len() - i,
    {
        let f = catalog[i];
        proof {
            assert(catalog@.contains(f));
            assert(factor_allowed(cfg@, f));
            lemma_count_kind_le_len(p, ScalarKind::EE);
            lemma_count_kind_le_len(p, ScalarKind::PE);
            assert forall|r: int| 0 <= r < s.pol_count@.len() implies #[trigger] s.pol_count@[r] + 2 <= u64::MAX by {
                lemma_touches_bound(p, r);
            }
            if plen > 0 {
                assert(factor_lt(catalog@[idx_start - 1], f));
            }
        }
        s.cur.factors.push(f);
        if matches!(f.kind, ScalarKind::EE) {
            s.cur.ee_contractions = s.cur.ee_contractions + 1;
        }
        if matches!(f.kind, ScalarKind::PE) {
            s.pe_so_far = s.pe_so_far + 1;
        }
        add_polarizations(&mut s.pol_count, &f);
        proof {
            let q = p.push(f);
            assert(q.drop_last() =~= p);
            assert(s.cur.factors@ == q);
            assert forall|a: int, b: int| 0 <= a < b < q.len() implies factor_lt(#[trigger] q[a], #[trigger] q[b]) by {
                if b == plen && a < plen - 1 {
                    assert(factor_lt(p[a], p[plen - 1]));
                }
            }
            assert forall|r: int| 0 <= r <= s.nlegs implies #[trigger] s.pol_count@[r] == touches(q, r) by {
            }
        }
        dfs_emit(s, i + 1, out, catalog, cfg);
        proof {
            let q = p.push(f);
            assert(q.drop_last() =~= p);
            assert forall|r: int| 0 <= r < s.pol_count@.len() implies #[trigger] s.pol_count@[r] >= factor_touches(f, r) by {
                assert(s.pol_count@[r] == touches(q, r));
            }
            lemma_count_kind_le_len(q, ScalarKind::EE);
        }
        remove_polarizations(&mut s.pol_count, &f);
        if matches!(f.kind, ScalarKind::PE) {
            s.pe_so_far = s.pe_so_far - 1;
        }
        if matches!(f.kind, ScalarKind::EE) {
            s.cur.ee_contractions = s.cur.ee_contractions - 1;
        }
        s.cur.factors.pop();
        proof {
            let q = p.push(f);
            assert(s.cur.factors@ =~= p);
            assert forall|r: int| 0 <= r <= s.nlegs implies #[trigger] s.pol_count@[r] == touches(p, r) by {
                assert(q.drop_last() =~= p);
            }
            assert forall|x: Seq<ScalarFactor>|
                #[trigger] factor_seqs(out@).contains(x) <==> (out0.contains(x) || (is_generated(
                    cfg@,
                    d,
                    e,
                    x,
                ) && extends(p, x) && x.len() > plen && exists|m: int|
                    idx_start <= m < i + 1 && #[trigger] catalog@[m] == x[plen])) by {
                lemma_extends_push(p, f, x);
            }
        }
        i = i + 1;
    }
    proof {
        assert forall|x: Seq<ScalarFactor>|
            is_generated(cfg@, d, e, x) && extends(p, x) && x.len() > plen implies exists|m: int|
                idx_start <= m < catalog@.len() && #[trigger] catalog@[m] == x[plen] by {
            assert(factor_allowed(cfg@, x[plen]));
            assert(catalog@.contains(x[plen]));
            let m = choose|m: int| 0 <= m < catalog@.len() && catalog@[m] == x[plen];
            if plen > 0 {
                assert(x[plen - 1] == p[plen - 1]);
                assert(factor_lt(x[plen - 1], x[plen]));
                if m < idx_start {
                    if m < idx_start - 1 {
                        assert(factor_lt(catalog@[m], catalog@[idx_start - 1]));
                    }
                }
            }
        }
    }
}

/// `r` lists, strictly ordered and well formed, exactly the structures
/// generated for `cfg`, `degree` and `ee`.
pub open spec fn generation_result(cfg: GenConfig, degree: nat, ee: nat, r: Seq<TensorStructure>) -> bool {
    &&& forall|x: Seq<ScalarFactor>|
        #[trigger] factor_seqs(r).contains(x) <==> is_generated(cfg, degree, ee, x)
    &&& strictly_ordered(factor_seqs(r))
    &&& forall|k: int| 0 <= k < r.len() ==> (#[trigger] r[k]).wf()
}

/// Generation is deterministic: two results for the same inputs hold the
/// same structures in the same order.
pub proof fn lemma_generation_deterministic(
    cfg: GenConfig,
    degree: nat,
    ee: nat,
    r1: Seq<TensorStructure>,
    r2: Seq<TensorStructure>,
)
    requires
        generation_result(cfg, degree, ee, r1),
        generation_result(cfg, degree, ee, r2),
    ensures
        r1.len() == r2.len(),
        forall|k: int|
            0 <= k < r1.len() ==> (#[trigger] r1[k]).factors@ == r2[k].factors@
                && r1[k].ee_contractions == r2[k].ee_contractions,
{
    let v1 = factor_seqs(r1);
    let v2 = factor_seqs(r2);
    lemma_strictly_ordered_unique(v1, v2);
    assert forall|k: int| 0 <= k < r1.len() implies (#[trigger] r1[k]).factors@ == r2[k].factors@
        && r1[k].ee_contractions == r2[k].ee_contractions by {
        assert(v1[k] == v2[k]);
    }
}

/// Every structure generated under the one-polarization-per-leg pattern is
/// also generated, for the same legs, transversality, degree and `EE`
/// count, under the unrestricted pattern.
pub proof fn lemma_one_per_leg_within_unrestricted(
    one_pol: GenConfig,
    unrestricted: GenConfig,
    degree: nat,
    ee: nat,
    r1: Seq<TensorStructure>,
    r2: Seq<TensorStructure>,
)
    requires
        one_pol.n_legs == unrestricted.n_legs,
        one_pol.transversality == unrestricted.transversality,
        one_pol.pol_pattern == PolarizationPattern::OnePerLeg,
        unrestricted.pol_pattern == PolarizationPattern::Unrestricted,
        generation_result(one_pol, degree, ee, r1),
        generation_result(unrestricted, degree, ee, r2),
    ensures
        forall|x: Seq<ScalarFactor>|
            #[trigger] factor_seqs(r1).contains(x) ==> factor_seqs(r2).contains(x),
{
    assert forall|x: Seq<ScalarFactor>| #[trigger] factor_seqs(r1).contains(x) implies factor_seqs(
        r2,
    ).contains(x) by {
        assert(is_generated(one_pol, degree, ee, x));
        assert forall|i: int| 0 <= i < x.len() implies factor_allowed(unrestricted, #[trigger] x[i]) by {
            assert(factor_allowed(one_pol, x[i]));
        }
        assert(is_generated(unrestricted, degree, ee, x));
    }
}

/// Enumerates, in the structure order and without repetition, every
/// structure of `target_degree` permitted factors with `ee_contractions`
/// factors of kind `EE` that meets the configured polarization pattern.
pub fn generate_tensor_structures(cfg: &GenConfig, target_degree: u32, ee_contractions: u32) -> (r:
    Vec<TensorStructure>)
    ensures
        generation_result(*cfg, target_degree as nat, ee_contractions as nat, r@),
        target_degree == 0 ==> r@.len() == 0,
        ee_contractions > target_degree ==> r@.len() == 0,
        forall|k: int| 0 <= k < r@.len() ==> non_decreasing(#[trigger] r@[k].factors@),
        forall|j: int, k: int|
            0 <= j < k < r@.len() ==> (#[trigger] r@[j].factors@).to_multiset()
                != (#[trigger] r@[k].factors@).to_multiset(),
        forall|k: int|
            0 <= k < r@.len() && cfg.pol_pattern == PolarizationPattern::OnePerLeg ==> {
                &&& (#[trigger] r@[k]).factors@.len() == target_degree
                &&& one_pol_per_leg(cfg.n_legs as nat, r@[k].factors@)
            },
{
    let ghost d = target_degree as nat;
    let ghost e = ee_contractions as nat;
    if target_degree == 0 || ee_contractions > target_degree {
        let r: Vec<TensorStructure> = Vec::new();
        proof {
            assert forall|x: Seq<ScalarFactor>| !is_generated(*cfg, d, e, x) by {
                lemma_count_kind_le_len(x, ScalarKind::EE);
            }
            assert(factor_seqs(r@) =~= Seq::<Seq<ScalarFactor>>::empty());
        }
        return r;
    }

    let (mut pp, mut pe, mut ee) = generate_valid_factors(cfg);
    let ghost pps = pp@;
    let ghost pes = pe@;
    let ghost ees = ee@;
    let mut catalog: Vec<ScalarFactor> = Vec::new();
    catalog.append(&mut pp);
    catalog.append(&mut pe);
    catalog.append(&mut ee);
    proof {
        let c = catalog@;
        assert(c =~= pps + pes + ees);
        assert forall|k: int| 0 <= k < c.len() implies kind_at(pps.len() as int, pes.len() as int, k)
            == (#[trigger] c[k]).kind && factor_allowed(*cfg, c[k]) by {
            if k < pps.len() {
                assert(c[k] == pps[k]);
                assert(pps.contains(pps[k]));
                assert(pp_allowed(cfg.n_legs as int, pps[k]));
                assert(c[k].kind == ScalarKind::PP);
                assert(factor_allowed(*cfg, c[k]));
            } else if k < pps.len() + pes.len() {
                assert(c[k] == pes[k - pps.len()]);
                assert(pes.contains(pes[k - pps.len()]));
                assert(pe_allowed(*cfg, pes[k - pps.len()]));
                assert(c[k].kind == ScalarKind::PE);
            } else {
                assert(c[k] == ees[k - pps.len() - pes.len()]);
                assert(ees.contains(ees[k - pps.len() - pes.len()]));
                assert(ee_allowed(cfg.n_legs as int, ees[k - pps.len() - pes.len()]));
                assert(c[k].kind == ScalarKind::EE);
            }
        }
        assert forall|a: int, b: int| 0 <= a < b < c.len() implies factor_lt(
            #[trigger] c[a],
            #[trigger] c[b],
        ) by {
            if b < pps.len() {
                assert(factor_lt(pps[a], pps[b]));
            } else if a >= pps.len() && b < pps.len() + pes.len() {
                assert(factor_lt(pes[a - pps.len()], pes[b - pps.len()]));
            } else if a >= pps.len() + pes.len() {
                assert(factor_lt(ees[a - pps.len() - pes.len()], ees[b - pps.len() - pes.len()]));
            }
        }
        assert forall|f: ScalarFactor| c.contains(f) <==> factor_allowed(*cfg, f) by {
            if factor_allowed(*cfg, f) {
                if pp_allowed(cfg.n_legs as int, f) {
                    let k = choose|k: int| 0 <= k < pps.len() && pps[k] == f;
                    assert(c[k] == f);
                } else if pe_allowed(*cfg, f) {
                    let k = choose|k: int| 0 <= k < pes.len() && pes[k] == f;
                    assert(c[k + pps.len()] == f);
                } else {
                    let k = choose|k: int| 0 <= k < ees.len() && ees[k] == f;
                    assert(c[k + pps.len() + pes.len()] == f);
                }
            }
        }
    }

    let nlegs = cfg.n_legs;
    let mut pol_count: Vec<u64> = Vec::new();
    let mut k: usize = 0;
    while k <= nlegs as usize
        invariant
            k <= nlegs + 1,
            pol_count@.len() == k,
            forall|m: int| 0 <= m < k ==> #[trigger] pol_count@[m] == 0,
        decreases nlegs + 1 - k,
    {
        pol_count.push(0);
        k = k + 1;
    }
    let mut s = DfsState {
        target_deg: target_degree,
        ee_needed: ee_contractions,
        nlegs,
        enforce_one_pol: matches!(cfg.pol_pattern, PolarizationPattern::OnePerLeg),
        cur: TensorStructure::new(),
        pe_so_far: 0,
        pol_count,
    };
    let mut out: Vec<TensorStructure> = Vec::new();
    proof {
        assert(factor_seqs(out@) =~= Seq::<Seq<ScalarFactor>>::empty());
        assert forall|x: Seq<ScalarFactor>| extends(Seq::<ScalarFactor>::empty(), x) by {
            assert(x.subrange(0, 0) =~= Seq::<ScalarFactor>::empty());
        }
    }
    dfs_emit(&mut s, 0, &mut out, &catalog, Ghost(*cfg));
    proof {
        let v = factor_seqs(out@);
        assert forall|k: int| 0 <= k < out@.len() implies non_decreasing(#[trigger] out@[k].factors@) by {
            assert(v[k] == out@[k].factors@);
            assert(v.contains(v[k]));
        }
        assert forall|j: int, k: int|
            0 <= j < k < out@.len() implies (#[trigger] out@[j].factors@).to_multiset()
                != (#[trigger] out@[k].factors@).to_multiset() by {
            assert(v[j] == out@[j].factors@);
            assert(v[k] == out@[k].factors@);
            assert(v.contains(v[j]));
            assert(v.contains(v[k]));
            assert(seq_lt(v[j], v[k]));
            if v[j].to_multiset() == v[k].to_multiset() {
                lemma_sorted_same_factors_equal(v[j], v[k]);
                lemma_seq_lt_irreflexive(v[j]);
            }
        }
        assert forall|k: int|
            0 <= k < out@.len() && cfg.pol_pattern == PolarizationPattern::OnePerLeg implies {
                &&& (#[trigger] out@[k]).factors@.len() == target_degree
                &&& one_pol_per_leg(cfg.n_legs as nat, out@[k].factors@)
            } by {
            assert(v[k] == out@[k].factors@);
            assert(v.contains(v[k]));
        }
    }
    out
}

/// Kind of the catalog entry at position `k`, for catalog sections of
/// `npp` and `npe` entries ahead of the `EE` section.
spec fn kind_at(npp: int, npe: int, k: int) -> ScalarKind {
    if k < npp {
        ScalarKind::PP
    } else if k < npp + npe {
        ScalarKind::PE
    } else {
        ScalarKind::EE
    }
}

/// Sizes of the three catalogs that `cfg` permits.
pub fn count_valid_factors(cfg: &GenConfig) -> (r: CatalogCounts)
    ensures
        r.num_pp == Set::new(|f: ScalarFactor| pp_allowed(cfg.n_legs as int, f)).len(),
        r.num_pe == Set::new(|f: ScalarFactor| pe_allowed(*cfg, f)).len(),
        r.num_ee == Set::new(|f: ScalarFactor| ee_allowed(cfg.n_legs as int, f)).len(),
{
    let (pp, pe, ee) = generate_valid_factors(cfg);
    proof {
        lemma_catalog_size(pp@, Set::new(|f: ScalarFactor| pp_allowed(cfg.n_legs as int, f)));
        lemma_catalog_size(pe@, Set::new(|f: ScalarFactor| pe_allowed(*cfg, f)));
        lemma_catalog_size(ee@, Set::new(|f: ScalarFactor| ee_allowed(cfg.n_legs as int, f)));
    }
    CatalogCounts { num_pp: pp.len(), num_pe: pe.len(), num_ee: ee.len() }
}

/// A strictly increasing list of exactly the members of `set` is as long as
/// `set` is large.
proof fn lemma_catalog_size(s: Seq<ScalarFactor>, set: Set<ScalarFactor>)
    requires
        strictly_sorted(s),
        forall|f: ScalarFactor| s.contains(f) <==> set.contains(f),
    ensures
        set.finite(),
        s.len() == set.len(),
{
    assert(s.no_duplicates()) by {
        assert forall|i: int, j: int| 0 <= i < s.len() && 0 <= j < s.len() && i != j implies s[i]
            != s[j] by {
            if i < j {
                assert(factor_lt(s[i], s[j]));
            } else {
                assert(factor_lt(s[j], s[i]));
            }
        }
    }
    assert(s.to_set() =~= set);
    s.unique_seq_to_set();
}

} // verus!
