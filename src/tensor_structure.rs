use vstd::prelude::*;
use vstd::multiset::Multiset;

use vstd::string::StringExecFns;

use crate::dot_product::{
    factor_le, factor_lt, factor_text, lemma_key_injective, non_decreasing, ScalarFactor,
};
use crate::types::ScalarKind;

verus! {

broadcast use vstd::seq_lib::group_to_multiset_ensures, vstd::multiset::group_multiset_axioms;

/// A product of scalar factors together with the number of `EE` factors in it.
#[derive(Clone, Debug, PartialEq, Eq, Hash)]
pub struct TensorStructure {
    pub factors: Vec<ScalarFactor>,
    pub ee_contractions: u32,
}

/// Number of factors of kind `k` in `s`.
pub open spec fn count_kind(s: Seq<ScalarFactor>, k: ScalarKind) -> nat
    decreases s.len(),
{
    if s.len() == 0 {
        0
    } else {
        count_kind(s.drop_last(), k) + if s.last().kind == k {
            1nat
        } else {
            0nat
        }
    }
}

/// Lexicographic order on factor sequences; a proper prefix comes first.
pub open spec fn seq_lt(x: Seq<ScalarFactor>, y: Seq<ScalarFactor>) -> bool
    decreases x.len(),
{
    if y.len() == 0 {
        false
    } else if x.len() == 0 {
        true
    } else if factor_lt(x[0], y[0]) {
        true
    } else if x[0] == y[0] {
        seq_lt(x.drop_first(), y.drop_first())
    } else {
        false
    }
}

/// The factors' texts joined by `" Â· "`.
pub open spec fn joined_text(s: Seq<ScalarFactor>) -> Seq<char>
    decreases s.len(),
{
    if s.len() <= 1 {
        if s.len() == 1 {
            factor_text(s[0])
        } else {
            Seq::empty()
        }
    } else {
        joined_text(s.drop_last()) + seq![' ', 'Â', '·', ' '] + factor_text(s.last())
    }
}

/// Text of a structure: `1` for the empty product, else the joined factors.
pub open spec fn structure_text(s: Seq<ScalarFactor>) -> Seq<char> {
    if s.len() == 0 {
        seq!['1']
    } else {
        joined_text(s)
    }
}

impl TensorStructure {
    /// The cached `EE` count agrees with the factors.
    pub open spec fn wf(self) -> bool {
        self.ee_contractions as nat == count_kind(self.factors@, ScalarKind::EE)
    }

    /// The empty product.
    pub fn new() -> (r: Self)
        ensures
            r.factors@ == Seq::<ScalarFactor>::empty(),
            r.ee_contractions == 0,
            r.wf(),
    {
        TensorStructure { factors: Vec::new(), ee_contractions: 0 }
    }

    /// Sorts the factors into canonical (non-decreasing) order.
    pub fn canonicalize(&mut self)
        ensures
            non_decreasing(final(self).factors@),
            final(self).factors@.to_multiset() == old(self).factors@.to_multiset(),
            final(self).ee_contractions == old(self).ee_contractions,
    {
        let ghost orig = self.factors@;
        let mut rest = copy_factors(&self.factors);
        let mut out: Vec<ScalarFactor> = Vec::new();
        while rest.len() > 0
            invariant
                out@.to_multiset().add(rest@.to_multiset()) == orig.to_multiset(),
                non_decreasing(out@),
                forall|i: int, j: int|
                    0 <= i < out@.len() && 0 <= j < rest@.len() ==> factor_le(
                        #[trigger] out@[i],
                        #[trigger] rest@[j],
                    ),
            decreases rest.len(),
        {
            let mut m: usize = 0;
            let mut j: usize = 1;
            while j < rest.len()
                invariant
                    0 <= m < rest@.len(),
                    1 <= j <= rest@.len(),
                    forall|k: int| 0 <= k < j ==> factor_le(rest@[m as int], #[trigger] rest@[k]),
                decreases rest.len() - j,
            {
                if rest[j].precedes(&rest[m]) {
                    m = j;
                }
                j = j + 1;
            }
            let ghost old_rest = rest@;
            let ghost old_out = out@;
            let f = rest.remove(m);
            out.push(f);
            proof {
                assert(old_rest.to_multiset().contains(f));
                assert(rest@.to_multiset() =~= old_rest.to_multiset().remove(f));
                assert(out@.to_multiset() =~= old_out.to_multiset().insert(f));
                assert(out@.to_multiset().add(rest@.to_multiset()) =~= old_out.to_multiset().add(
                    old_rest.to_multiset(),
                ));
                assert forall|i: int, j2: int|
                    0 <= i < out@.len() && 0 <= j2 < rest@.len() implies factor_le(
                    #[trigger] out@[i],
                    #[trigger] rest@[j2],
                ) by {
                    let jj = if j2 < m {
                        j2
                    } else {
                        j2 + 1
                    };
                    assert(rest@[j2] == old_rest[jj]);
                    if i < old_out.len() {
                        assert(out@[i] == old_out[i]);
                    }
                }
            }
        }
        proof {
            assert(rest@ =~= Seq::<ScalarFactor>::empty());
            assert(rest@.to_multiset() =~= Multiset::<ScalarFactor>::empty());
            assert(out@.to_multiset() =~= orig.to_multiset());
        }
        self.factors = out;
    }

    /// The structure as text, such as `(e1·e2) Â· (p1·e3)`.
    pub fn to_string(&self) -> (r: String)
        ensures
            r@ == structure_text(self.factors@),
    {
        proof {
            reveal_strlit("1");
        }
        if self.factors.len() == 0 {
            return String::from_str("1");
        }
        let mut r = String::new();
        let mut i: usize = 0;
        while i < self.factors.len()
            invariant
                0 <= i <= self.factors@.len(),
                self.factors@.len() > 0,
                r@ == joined_text(self.factors@.subrange(0, i as int)),
            decreases self.factors.len() - i,
        {
            let ghost before = r@;
            proof {
                reveal_strlit(" Â· ");
            }
            if i > 0 {
                r.append(" Â· ");
            }
            let t = self.factors[i].to_string();
            r.append(t.as_str());
            proof {
                let pre = self.factors@.subrange(0, i as int + 1);
                assert(pre.drop_last() =~= self.factors@.subrange(0, i as int));
                assert(pre.last() == self.factors@[i as int]);
                if i == 0 {
                    assert(pre =~= seq![self.factors@[0]]);
                    assert(r@ =~= joined_text(pre));
                } else {
                    assert(r@ =~= before + seq![' ', 'Â', '·', ' '] + factor_text(pre.last()));
                    assert(r@ =~= joined_text(pre));
                }
            }
            i = i + 1;
        }
        assert(self.factors@.subrange(0, i as int) =~= self.factors@);
        r
    }

    /// Strict canonical order on structures: lexicographic over the factors.
    pub fn precedes(&self, other: &TensorStructure) -> (r: bool)
        ensures
            r == seq_lt(self.factors@, other.factors@),
    {
        let mut i: usize = 0;
        assert(self.factors@.skip(0) =~= self.factors@);
        assert(other.factors@.skip(0) =~= other.factors@);
        while i < self.factors.len() && i < other.factors.len()
            invariant
                0 <= i <= self.factors@.len(),
                i <= other.factors@.len(),
                seq_lt(self.factors@, other.factors@) == seq_lt(self.factors@.skip(i as int), other.factors@.skip(i as int)),
            decreases self.factors.len() - i,
        {
            assert(self.factors@.skip(i as int)[0] == self.factors@[i as int]);
            assert(other.factors@.skip(i as int)[0] == other.factors@[i as int]);
            let ghost xs = self.factors@.skip(i as int);
            let ghost ys = other.factors@.skip(i as int);
            assert(xs.len() > 0 && ys.len() > 0);
            if self.factors[i].precedes(&other.factors[i]) {
                assert(seq_lt(xs, ys));
                return true;
            }
            if other.factors[i].precedes(&self.factors[i]) {
                assert(xs[0] != ys[0]);
                assert(!seq_lt(xs, ys));
                return false;
            }
            proof {
                lemma_key_injective(self.factors@[i as int], other.factors@[i as int]);
                assert(self.factors@.skip(i as int).drop_first() =~= self.factors@.skip(i + 1));
                assert(other.factors@.skip(i as int).drop_first() =~= other.factors@.skip(i + 1));
            }
            i = i + 1;
        }
        proof {
            if i == self.factors.len() {
                assert(self.factors@.skip(i as int).len() == 0);
            } else {
                assert(other.factors@.skip(i as int).len() == 0);
            }
        }
        i == self.factors.len() && i < other.factors.len()
    }
}

/// A copy of a factor list.
pub fn copy_factors(v: &Vec<ScalarFactor>) -> (r: Vec<ScalarFactor>)
    ensures
        r@ == v@,
{
    let mut r: Vec<ScalarFactor> = Vec::new();
    let mut i: usize = 0;
    while i < v.len()
        invariant
            0 <= i <= v@.len(),
            r@ == v@.subrange(0, i as int),
        decreases v.len() - i,
    {
        r.push(v[i]);
        i = i + 1;
        assert(r@ =~= v@.subrange(0, i as int));
    }
    assert(r@ =~= v@);
    r
}

/// The lexicographic order is irreflexive.
pub proof fn lemma_seq_lt_irreflexive(x: Seq<ScalarFactor>)
    ensures
        !seq_lt(x, x),
    decreases x.len(),
{
    if x.len() > 0 {
        lemma_seq_lt_irreflexive(x.drop_first());
    }
}

/// The lexicographic order is transitive.
pub proof fn lemma_seq_lt_transitive(x: Seq<ScalarFactor>, y: Seq<ScalarFactor>, z: Seq<ScalarFactor>)
    requires
        seq_lt(x, y),
        seq_lt(y, z),
    ensures
        seq_lt(x, z),
    decreases x.len(),
{
    if x.len() > 0 && y.len() > 0 && z.len() > 0 && x[0] == y[0] && y[0] == z[0] {
        lemma_seq_lt_transitive(x.drop_first(), y.drop_first(), z.drop_first());
    }
}

/// Of two distinct sequences, one comes before the other.
pub proof fn lemma_seq_lt_connected(x: Seq<ScalarFactor>, y: Seq<ScalarFactor>)
    requires
        x != y,
    ensures
        seq_lt(x, y) || seq_lt(y, x),
    decreases x.len(),
{
    if x.len() == 0 || y.len() == 0 {
        if x.len() == 0 && y.len() == 0 {
            assert(x =~= y);
        }
    } else if x[0] == y[0] {
        if x.drop_first() == y.drop_first() {
            assert(x =~= seq![x[0]] + x.drop_first());
            assert(y =~= seq![y[0]] + y.drop_first());
        }
        lemma_seq_lt_connected(x.drop_first(), y.drop_first());
    } else if x[0].key() == y[0].key() {
        lemma_key_injective(x[0], y[0]);
    }
}

/// Counting a kind over a concatenation adds up.
pub proof fn lemma_count_kind_concat(p: Seq<ScalarFactor>, q: Seq<ScalarFactor>, k: ScalarKind)
    ensures
        count_kind(p + q, k) == count_kind(p, k) + count_kind(q, k),
    decreases q.len(),
{
    if q.len() > 0 {
        assert((p + q).drop_last() =~= p + q.drop_last());
        lemma_count_kind_concat(p, q.drop_last(), k);
    } else {
        assert(p + q =~= p);
    }
}

/// A kind occurs at most as often as there are factors.
pub proof fn lemma_count_kind_le_len(s: Seq<ScalarFactor>, k: ScalarKind)
    ensures
        count_kind(s, k) <= s.len(),
    decreases s.len(),
{
    if s.len() > 0 {
        lemma_count_kind_le_len(s.drop_last(), k);
    }
}

} // verus!
