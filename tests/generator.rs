use treeamps::{
    generate_tensor_structures, GenConfig, LegIndex, PolarizationPattern, ScalarFactor,
    ScalarKind, TensorStructure, Transversality,
};
use treeamps::generator::{count_valid_factors, generate_valid_factors};

fn config(n: u8, t: Transversality, p: PolarizationPattern) -> GenConfig {
    GenConfig { n_legs: n, transversality: t, pol_pattern: p }
}

fn one_pol(n: u8) -> GenConfig {
    config(n, Transversality::ForbidPiDotEi, PolarizationPattern::OnePerLeg)
}

fn key(f: &ScalarFactor) -> (u8, u8, u8) {
    let k = match f.kind {
        ScalarKind::PP => 0,
        ScalarKind::PE => 1,
        ScalarKind::EE => 2,
    };
    (k, f.a.0, f.b.0)
}

#[test]
fn default_config_values() {
    let c = GenConfig::default();
    assert_eq!(c.n_legs, 3);
    assert_eq!(c.transversality, Transversality::ForbidPiDotEi);
    assert_eq!(c.pol_pattern, PolarizationPattern::OnePerLeg);
}

#[test]
fn four_legs_one_ee_gives_24() {
    let ts = generate_tensor_structures(&one_pol(4), 3, 1);
    assert_eq!(ts.len(), 24);
}

#[test]
fn four_legs_pure_ee_gives_3() {
    let ts = generate_tensor_structures(&one_pol(4), 2, 2);
    assert_eq!(ts.len(), 3);
    let texts: Vec<String> = ts.iter().map(|t| t.to_string()).collect();
    assert_eq!(
        texts,
        vec![
            "(e1·e2) Â· (e3·e4)".to_string(),
            "(e1·e3) Â· (e2·e4)".to_string(),
            "(e1·e4) Â· (e2·e3)".to_string(),
        ]
    );
}

#[test]
fn degree_zero_is_empty() {
    assert!(generate_tensor_structures(&one_pol(4), 0, 0).is_empty());
    let unr = config(3, Transversality::NoConstraint, PolarizationPattern::Unrestricted);
    assert!(generate_tensor_structures(&unr, 0, 0).is_empty());
}

#[test]
fn more_ee_than_degree_is_empty() {
    assert!(generate_tensor_structures(&one_pol(4), 1, 2).is_empty());
    let unr = config(4, Transversality::NoConstraint, PolarizationPattern::Unrestricted);
    assert!(generate_tensor_structures(&unr, 2, 3).is_empty());
}

#[test]
fn generation_is_deterministic() {
    let a = generate_tensor_structures(&one_pol(4), 3, 1);
    let b = generate_tensor_structures(&one_pol(4), 3, 1);
    assert_eq!(a, b);
}

#[test]
fn structures_are_canonical_and_ordered() {
    let unr = config(4, Transversality::ForbidPiDotEi, PolarizationPattern::Unrestricted);
    let ts = generate_tensor_structures(&unr, 2, 1);
    assert!(!ts.is_empty());
    for t in &ts {
        assert_eq!(t.factors.len(), 2);
        for w in t.factors.windows(2) {
            assert!(key(&w[0]) < key(&w[1]));
        }
        let ee = t.factors.iter().filter(|f| f.kind == ScalarKind::EE).count();
        assert_eq!(ee, 1);
        assert_eq!(t.ee_contractions, 1);
    }
    for w in ts.windows(2) {
        assert!(w[0].precedes(&w[1]));
        assert_ne!(w[0], w[1]);
    }
}

#[test]
fn one_pol_per_leg_holds_in_results() {
    for (deg, ee) in [(3u32, 1u32), (2, 2), (4, 0), (4, 1)] {
        let ts = generate_tensor_structures(&one_pol(4), deg, ee);
        for t in &ts {
            assert_eq!(t.factors.len(), deg as usize);
            let mut uses = [0u32; 5];
            for f in &t.factors {
                match f.kind {
                    ScalarKind::PE => uses[f.b.0 as usize] += 1,
                    ScalarKind::EE => {
                        uses[f.a.0 as usize] += 1;
                        uses[f.b.0 as usize] += 1;
                    }
                    ScalarKind::PP => {}
                }
            }
            assert_eq!(&uses[1..], &[1, 1, 1, 1]);
        }
    }
}

#[test]
fn unrestricted_is_superset_of_one_per_leg() {
    for (deg, ee) in [(3u32, 1u32), (2, 2), (4, 0), (3, 0)] {
        let strict = generate_tensor_structures(&one_pol(4), deg, ee);
        let loose = generate_tensor_structures(
            &config(4, Transversality::ForbidPiDotEi, PolarizationPattern::Unrestricted),
            deg,
            ee,
        );
        assert!(loose.len() >= strict.len());
        for t in &strict {
            assert!(loose.contains(t));
        }
    }
}

#[test]
fn unrestricted_pure_ee_for_four_legs() {
    // Any two distinct EE factors out of the six pairs.
    let unr = config(4, Transversality::NoConstraint, PolarizationPattern::Unrestricted);
    assert_eq!(generate_tensor_structures(&unr, 2, 2).len(), 15);
}

#[test]
fn catalog_for_four_legs() {
    let (pp, pe, ee) = generate_valid_factors(&one_pol(4));
    assert_eq!(pp.len(), 3);
    assert!(pp.iter().all(|f| f.kind == ScalarKind::PP && f.a.0 != 4 && f.b.0 != 4));
    assert_eq!(pe.len(), 8);
    assert!(pe.iter().all(|f| f.kind == ScalarKind::PE && f.a.0 != 4 && f.a != f.b));
    assert!(!pe.contains(&ScalarFactor::pe(LegIndex(1), LegIndex(4))));
    assert_eq!(ee.len(), 6);
    for list in [&pp, &pe, &ee] {
        for w in list.windows(2) {
            assert!(key(&w[0]) < key(&w[1]));
        }
    }
}

#[test]
fn catalog_without_transversality() {
    let cfg = config(4, Transversality::NoConstraint, PolarizationPattern::OnePerLeg);
    let (_, pe, _) = generate_valid_factors(&cfg);
    assert_eq!(pe.len(), 11);
    assert!(pe.contains(&ScalarFactor::pe(LegIndex(2), LegIndex(2))));
    assert!(!pe.contains(&ScalarFactor::pe(LegIndex(1), LegIndex(4))));
    assert!(!pe.iter().any(|f| f.a.0 == 4));
}

#[test]
fn catalog_counts() {
    let c = count_valid_factors(&one_pol(4));
    assert_eq!((c.num_pp, c.num_pe, c.num_ee), (3, 8, 6));
    let c1 = count_valid_factors(&one_pol(1));
    assert_eq!((c1.num_pp, c1.num_pe, c1.num_ee), (0, 0, 0));
    let c0 = count_valid_factors(&one_pol(0));
    assert_eq!((c0.num_pp, c0.num_pe, c0.num_ee), (0, 0, 0));
}

#[test]
fn factor_text() {
    assert_eq!(ScalarFactor::pp(LegIndex(1), LegIndex(2)).to_string(), "(p1·p2)");
    assert_eq!(ScalarFactor::pe(LegIndex(3), LegIndex(1)).to_string(), "(p3·e1)");
    assert_eq!(ScalarFactor::ee(LegIndex(12), LegIndex(255)).to_string(), "(e12·e255)");
    assert_eq!(ScalarFactor::pe(LegIndex(0), LegIndex(100)).to_string(), "(p0·e100)");
}

#[test]
fn structure_text() {
    assert_eq!(TensorStructure::new().to_string(), "1");
    let t = TensorStructure {
        factors: vec![
            ScalarFactor::pp(LegIndex(1), LegIndex(2)),
            ScalarFactor::ee(LegIndex(3), LegIndex(4)),
        ],
        ee_contractions: 1,
    };
    assert_eq!(t.to_string(), "(p1·p2) Â· (e3·e4)");
}

#[test]
fn canonicalize_sorts_factors() {
    let mut t = TensorStructure {
        factors: vec![
            ScalarFactor::ee(LegIndex(1), LegIndex(2)),
            ScalarFactor::pe(LegIndex(2), LegIndex(3)),
            ScalarFactor::pp(LegIndex(1), LegIndex(3)),
            ScalarFactor::pe(LegIndex(1), LegIndex(3)),
            ScalarFactor::pe(LegIndex(1), LegIndex(3)),
        ],
        ee_contractions: 1,
    };
    t.canonicalize();
    assert_eq!(
        t.factors,
        vec![
            ScalarFactor::pp(LegIndex(1), LegIndex(3)),
            ScalarFactor::pe(LegIndex(1), LegIndex(3)),
            ScalarFactor::pe(LegIndex(1), LegIndex(3)),
            ScalarFactor::pe(LegIndex(2), LegIndex(3)),
            ScalarFactor::ee(LegIndex(1), LegIndex(2)),
        ]
    );
    assert_eq!(t.ee_contractions, 1);
}

#[test]
fn structure_order_is_lexicographic() {
    let a = TensorStructure { factors: vec![ScalarFactor::pp(LegIndex(1), LegIndex(2))], ee_contractions: 0 };
    let b = TensorStructure {
        factors: vec![
            ScalarFactor::pp(LegIndex(1), LegIndex(2)),
            ScalarFactor::pe(LegIndex(1), LegIndex(2)),
        ],
        ee_contractions: 0,
    };
    let c = TensorStructure { factors: vec![ScalarFactor::pe(LegIndex(1), LegIndex(2))], ee_contractions: 0 };
    assert!(a.precedes(&b));
    assert!(!b.precedes(&a));
    assert!(b.precedes(&c));
    assert!(!a.precedes(&a));
    assert!(TensorStructure::new().precedes(&a));
}

#[test]
fn factor_order() {
    let pp = ScalarFactor::pp(LegIndex(2), LegIndex(3));
    let pe = ScalarFactor::pe(LegIndex(1), LegIndex(1));
    let ee = ScalarFactor::ee(LegIndex(1), LegIndex(2));
    assert!(pp.precedes(&pe));
    assert!(pe.precedes(&ee));
    assert!(!ee.precedes(&pp));
    assert!(ScalarFactor::pe(LegIndex(1), LegIndex(2)).precedes(&ScalarFactor::pe(LegIndex(1), LegIndex(3))));
}
