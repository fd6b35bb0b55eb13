use vstd::prelude::*;
use vstd::relations::{sorted_by, total_ordering};
use vstd::string::StringExecFns;

use crate::types::{kind_rank, LegIndex, ScalarKind};

verus! {

/// A single scalar factor (dot product) in the tensor basis.
///
/// For `PP` and `EE` the legs are an unordered pair stored with `a < b`;
/// for `PE`, `a` is the momentum leg and `b` the polarization leg.
#[derive(Copy, Clone, Debug, PartialEq, Eq, Structural, Hash)]
pub struct ScalarFactor {
    pub kind: ScalarKind,
    pub a: LegIndex,
    pub b: LegIndex,
}

impl ScalarFactor {
    /// Position of the factor in the canonical order: kind first, then `a`,
    /// then `b`.
    pub open spec fn key(self) -> int {
        kind_rank(self.kind) * 65536 + self.a.0 * 256 + self.b.0
    }

    /// The momentum-momentum factor `p_i · p_j`.
    pub fn pp(i: LegIndex, j: LegIndex) -> (r: Self)
        ensures
            r == (ScalarFactor { kind: ScalarKind::PP, a: i, b: j }),
    {
        ScalarFactor { kind: ScalarKind::PP, a: i, b: j }
    }

    /// The momentum-polarization factor `p_i · e_j`.
    pub fn pe(i: LegIndex, j: LegIndex) -> (r: Self)
        ensures
            r == (ScalarFactor { kind: ScalarKind::PE, a: i, b: j }),
    {
        ScalarFactor { kind: ScalarKind::PE, a: i, b: j }
    }

    /// The polarization-polarization factor `e_i · e_j`.
    pub fn ee(i: LegIndex, j: LegIndex) -> (r: Self)
        ensures
            r == (ScalarFactor { kind: ScalarKind::EE, a: i, b: j }),
    {
        ScalarFactor { kind: ScalarKind::EE, a: i, b: j }
    }

    /// The canonical-order key as a machine integer.
    pub fn order_key(&self) -> (r: u32)
        ensures
            r as int == self.key(),
    {
        let rank: u32 = match self.kind {
            ScalarKind::PP => 0,
            ScalarKind::PE => 1,
            ScalarKind::EE => 2,
        };
        rank * 65536 + (self.a.0 as u32) * 256 + (self.b.0 as u32)
    }

    /// The factor as text, such as `(p1·e3)`.
    pub fn to_string(&self) -> (r: String)
        ensures
            r@ == factor_text(*self),
    {
        let mut r = String::new();
        let (head, mid): (&str, &str) = match self.kind {
            ScalarKind::PP => ("(p", "·p"),
            ScalarKind::PE => ("(p", "·e"),
            ScalarKind::EE => ("(e", "·e"),
        };
        proof {
            reveal_strlit("(p");
            reveal_strlit("(e");
            reveal_strlit("·p");
            reveal_strlit("·e");
            reveal_strlit(")");
        }
        r.append(head);
        push_decimal(&mut r, self.a.0);
        r.append(mid);
        push_decimal(&mut r, self.b.0);
        r.append(")");
        r
    }

    /// Strict canonical order: `self` comes before `other`.
    pub fn precedes(&self, other: &ScalarFactor) -> (r: bool)
        ensures
            r == factor_lt(*self, *other),
    {
        self.order_key() < other.order_key()
    }
}

/// The decimal digit `d`.
pub open spec fn digit_char(d: nat) -> char {
    if d == 0 { '0' } else if d == 1 { '1' } else if d == 2 { '2' } else if d == 3 { '3' }
    else if d == 4 { '4' } else if d == 5 { '5' } else if d == 6 { '6' } else if d == 7 { '7' }
    else if d == 8 { '8' } else { '9' }
}

/// Decimal notation of `n`, without leading zeros.
pub open spec fn decimal(n: nat) -> Seq<char>
    decreases n,
{
    if n < 10 {
        seq![digit_char(n)]
    } else {
        decimal(n / 10).push(digit_char(n % 10))
    }
}

/// Text of a factor: `(p1·p2)`, `(p1·e2)` or `(e1·e2)`.
pub open spec fn factor_text(f: ScalarFactor) -> Seq<char> {
    let head = match f.kind {
        ScalarKind::EE => 'e',
        _ => 'p',
    };
    let tail = match f.kind {
        ScalarKind::PP => 'p',
        _ => 'e',
    };
    seq!['(', head] + decimal(f.a.0 as nat) + seq!['·', tail] + decimal(f.b.0 as nat) + seq![')']
}

/// The text of a single decimal digit.
fn digit_str(d: u8) -> (r: &'static str)
    requires
        d < 10,
    ensures
        r@ == seq![digit_char(d as nat)],
{
    proof {
        reveal_strlit("0");
        reveal_strlit("1");
        reveal_strlit("2");
        reveal_strlit("3");
        reveal_strlit("4");
        reveal_strlit("5");
        reveal_strlit("6");
        reveal_strlit("7");
        reveal_strlit("8");
        reveal_strlit("9");
    }
    match d {
        0 => "0",
        1 => "1",
        2 => "2",
        3 => "3",
        4 => "4",
        5 => "5",
        6 => "6",
        7 => "7",
        8 => "8",
        _ => "9",
    }
}

/// Appends the decimal notation of `n`.
fn push_decimal(s: &mut String, n: u8)
    ensures
        final(s)@ == old(s)@ + decimal(n as nat),
{
    let ghost start = s@;
    if n >= 100 {
        s.append(digit_str(n / 100));
        s.append(digit_str((n / 10) % 10));
        s.append(digit_str(n % 10));
        proof {
            assert(decimal((n / 100) as nat) == seq![digit_char((n / 100) as nat)]);
            assert(decimal((n / 10) as nat) == decimal((n / 100) as nat).push(digit_char(((n / 10) % 10) as nat)));
            assert(decimal(n as nat) == decimal((n / 10) as nat).push(digit_char((n % 10) as nat)));
            assert(s@ =~= start + decimal(n as nat));
        }
    } else if n >= 10 {
        s.append(digit_str(n / 10));
        s.append(digit_str(n % 10));
        proof {
            assert(decimal(n as nat) == decimal((n / 10) as nat).push(digit_char((n % 10) as nat)));
            assert(s@ =~= start + decimal(n as nat));
        }
    } else {
        s.append(digit_str(n));
        proof {
            assert(s@ =~= start + decimal(n as nat));
        }
    }
}

/// Strict canonical order on factors.
pub open spec fn factor_lt(x: ScalarFactor, y: ScalarFactor) -> bool {
    x.key() < y.key()
}

/// Non-strict canonical order on factors.
pub open spec fn factor_le(x: ScalarFactor, y: ScalarFactor) -> bool {
    x.key() <= y.key()
}

/// Distinct factors have distinct keys.
pub proof fn lemma_key_injective(x: ScalarFactor, y: ScalarFactor)
    requires
        x.key() == y.key(),
    ensures
        x == y,
{
    assert(kind_rank(x.kind) == kind_rank(y.kind) && x.a.0 == y.a.0 && x.b.0 == y.b.0)
        by (nonlinear_arith)
        requires
            x.key() == y.key(),
            0 <= x.a.0 < 256,
            0 <= x.b.0 < 256,
            0 <= y.a.0 < 256,
            0 <= y.b.0 < 256,
            0 <= kind_rank(x.kind) <= 2,
            0 <= kind_rank(y.kind) <= 2,
            x.key() == kind_rank(x.kind) * 65536 + x.a.0 * 256 + x.b.0,
            y.key() == kind_rank(y.kind) * 65536 + y.a.0 * 256 + y.b.0,
    ;
}

/// The non-strict canonical order is a total order.
pub proof fn lemma_factor_le_total()
    ensures
        total_ordering(|x: ScalarFactor, y: ScalarFactor| factor_le(x, y)),
{
    assert forall|x: ScalarFactor, y: ScalarFactor|
        factor_le(x, y) && factor_le(y, x) implies x == y by {
        lemma_key_injective(x, y);
    }
}

/// Every factor comes strictly before the next one.
pub open spec fn strictly_sorted(s: Seq<ScalarFactor>) -> bool {
    forall|i: int, j: int| 0 <= i < j < s.len() ==> factor_lt(#[trigger] s[i], #[trigger] s[j])
}

/// No factor comes after the next one.
pub open spec fn non_decreasing(s: Seq<ScalarFactor>) -> bool {
    forall|i: int, j: int| 0 <= i < j < s.len() ==> factor_le(#[trigger] s[i], #[trigger] s[j])
}

/// Two non-decreasing sequences holding the same factors, counted with
/// multiplicity, are equal.
pub proof fn lemma_sorted_same_factors_equal(x: Seq<ScalarFactor>, y: Seq<ScalarFactor>)
    requires
        non_decreasing(x),
        non_decreasing(y),
        x.to_multiset() == y.to_multiset(),
    ensures
        x == y,
{
    let le = |p: ScalarFactor, q: ScalarFactor| factor_le(p, q);
    lemma_factor_le_total();
    assert forall|i: int, j: int| 0 <= i < j < x.len() implies le(x[i], x[j]) by {
        assert(factor_le(x[i], x[j]));
    }
    assert forall|i: int, j: int| 0 <= i < j < y.len() implies le(y[i], y[j]) by {
        assert(factor_le(y[i], y[j]));
    }
    assert(sorted_by(x, le));
    assert(sorted_by(y, le));
    vstd::seq_lib::lemma_sorted_unique(x, y, le);
}

} // verus!
