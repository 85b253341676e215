use num_integer::binomial;
use satoxid::cadical_backend::CadicalEncoder;
use satoxid::constraints::basic::Equal;
use satoxid::constraints::bounds::{AtMostK, AtleastK, ExactlyK};
use satoxid::constraints::same::SameCardinality;
use satoxid::constraints::test_util::{
    constraint_equals_repr_tester, constraint_implies_repr_tester, retry_until_unsat,
};
use satoxid::constraints::ConstraintRepr;
use satoxid::lit::Lit::{self, Pos};
use satoxid::lit::VarType;
use satoxid::model::Model;

fn named<I: Iterator<Item = u32>>(vars: I) -> Vec<VarType<u32>> {
    vars.map(|i| VarType::Named(Pos(i))).collect()
}

fn positives(model: &Model<u32>) -> usize {
    model.vars().iter().filter(|l| l.is_pos()).count()
}

fn positives_in(model: &Model<u32>, from: u32, to: u32) -> usize {
    model
        .vars()
        .iter()
        .filter(|l| (from..to).contains(l.var()))
        .filter(|l| matches!(l, Lit::Pos(_)))
        .count()
}

fn equate_with_shadows(encoder: &mut CadicalEncoder<u32>, from: u32, to: u32, shift: u32) {
    for v in from..to {
        encoder.add_constraint(Equal(named(vec![v, v + shift].into_iter())));
    }
}

#[test]
fn normal_atmostk() {
    let mut encoder = CadicalEncoder::new();

    let range = 10;
    let k = 5;
    let lits = named(1..=range);

    encoder.add_constraint(AtMostK { k, lits });

    let models = retry_until_unsat(&mut encoder, |model: &Model<u32>| {
        assert!(positives(model) <= k as usize)
    });
    assert_eq!(models as u32, (0..=k).map(|i| binomial(range, i)).sum());
}

#[test]
fn normal_atmost0() {
    let mut encoder = CadicalEncoder::new();

    let lits = named(1..=10);
    let k = 0;

    encoder.add_constraint(AtMostK { k, lits });

    let models = retry_until_unsat(&mut encoder, |model: &Model<u32>| {
        assert!(positives(model) <= k as usize)
    });
    assert_eq!(models, 1);
}

#[test]
fn atmostk_implies_repr() {
    let mut encoder = CadicalEncoder::new();

    let range = 10;
    let k = 5;
    let lits = named(1..=range);
    let constraint = AtMostK { k, lits };

    let repr =
        constraint.encode_constraint_implies_repr(None, &mut encoder.backend, &mut encoder.varmap);
    assert_ne!(repr, 0);

    let res = constraint_implies_repr_tester(&mut encoder, repr, |model: &Model<u32>| {
        positives(model) <= k as usize
    })
    .unwrap();
    assert_eq!(
        res.correct as u32,
        (0..=k).map(|i| binomial(range, i)).sum()
    );
    assert_eq!(res.total(), 1 << range);
}

#[test]
fn atmostk_equals_repr() {
    let mut encoder = CadicalEncoder::new();

    let range = 10;
    let k = 5;
    let lits = named(1..=range);

    let constraint = AtMostK { k, lits };

    let repr =
        constraint.encode_constraint_equals_repr(None, &mut encoder.backend, &mut encoder.varmap);

    let res = constraint_equals_repr_tester(&mut encoder, repr, |model: &Model<u32>| {
        positives(model) <= k as usize
    })
    .unwrap();
    assert_eq!(
        res.correct as u32,
        (0..=k).map(|i| binomial(range, i)).sum()
    );
    assert_eq!(res.total(), 1 << range);
}

#[test]
fn atmost0_implies_repr() {
    let mut encoder = CadicalEncoder::new();

    let range = 10;
    let k = 0;
    let lits = named(1..=range);

    let constraint = AtMostK { k, lits };

    let repr = encoder.varmap.new_var();
    constraint.encode_constraint_implies_repr(
        Some(repr),
        &mut encoder.backend,
        &mut encoder.varmap,
    );

    let res = constraint_implies_repr_tester(&mut encoder, repr, |model: &Model<u32>| {
        positives(model) <= k as usize
    })
    .unwrap();
    assert_eq!(res.correct, 1);
    assert_eq!(res.total(), 1 << range);
}

#[test]
fn atmost0_equals_repr() {
    let mut encoder = CadicalEncoder::new();

    let range = 10;
    let k = 0;
    let lits = named(1..=range);

    let constraint = AtMostK { k, lits };

    let repr =
        constraint.encode_constraint_equals_repr(None, &mut encoder.backend, &mut encoder.varmap);

    let res = constraint_equals_repr_tester(&mut encoder, repr, |model: &Model<u32>| {
        positives(model) <= k as usize
    })
    .unwrap();
    assert_eq!(
        res.correct as u32,
        (0..=k).map(|i| binomial(range, i)).sum()
    );
    assert_eq!(res.total(), 1 << range);
}

#[test]
fn normal_atleastk() {
    let mut encoder = CadicalEncoder::new();

    let range = 10;
    let k = 5;
    let lits = named(0..range);

    encoder.add_constraint(AtleastK { k, lits });

    let res = retry_until_unsat(&mut encoder, |model: &Model<u32>| {
        let mut v: Vec<_> = model.vars().iter().map(|l| (*l.var(), l.is_neg())).collect();
        v.sort();
        println!("{:?}", v);
        assert!(positives(model) >= k as usize)
    });
    assert_eq!(res as u32, (k..=range).map(|i| binomial(range, i)).sum());
}

#[test]
fn normal_atleast0() {
    let mut encoder = CadicalEncoder::new();

    let range = 5;
    let k = 0;
    let lits = named(0..range);

    // "At least 0" encodes nothing, so every variable is tied to a shadow
    // variable to make it appear in the clauses at all.
    equate_with_shadows(&mut encoder, 0, range, range);

    encoder.add_constraint(AtleastK { k, lits });

    let res = retry_until_unsat(&mut encoder, |model: &Model<u32>| {
        let mut v: Vec<_> = model.vars().iter().map(|l| (*l.var(), l.is_neg())).collect();
        v.sort();
        println!("{:?}", v);
        assert!(positives(model) >= k as usize)
    });
    assert_eq!(res as u32, 1 << range);
}

#[test]
fn atleastk_implies_repr() {
    let mut encoder = CadicalEncoder::new();

    let range = 10;
    let k = 6;
    let lits = named(1..=range);
    let constraint = AtleastK { k, lits };

    let repr =
        constraint.encode_constraint_implies_repr(None, &mut encoder.backend, &mut encoder.varmap);
    assert!(repr > 0);

    let res = constraint_implies_repr_tester(&mut encoder, repr, |model: &Model<u32>| {
        positives(model) >= k as usize
    })
    .unwrap();
    assert_eq!(
        res.correct as u32,
        (k..=range).map(|i| binomial(range, i)).sum()
    );
    assert_eq!(res.total(), 1 << range);
}

#[test]
fn atleastk_equals_repr() {
    let mut encoder = CadicalEncoder::new();

    let range = 10;
    let k = 5;
    let lits = named(1..=range);
    let constraint = AtleastK { k, lits };

    let repr =
        constraint.encode_constraint_equals_repr(None, &mut encoder.backend, &mut encoder.varmap);
    assert!(repr > 0);

    let res = constraint_equals_repr_tester(&mut encoder, repr, |model: &Model<u32>| {
        positives(model) >= k as usize
    })
    .unwrap();
    assert_eq!(
        res.correct as u32,
        (k..=range).map(|i| binomial(range, i)).sum()
    );
    assert_eq!(res.total(), 1 << range);
}

#[test]
fn atleast0_implies_repr() {
    let mut encoder = CadicalEncoder::new();

    let range = 10;
    let k = 0;
    let lits = named(1..=range);

    equate_with_shadows(&mut encoder, 1, range + 1, range);

    let constraint = AtleastK { k, lits };

    let repr = encoder.varmap.new_var();
    constraint.encode_constraint_implies_repr(
        Some(repr),
        &mut encoder.backend,
        &mut encoder.varmap,
    );

    let res = constraint_implies_repr_tester(&mut encoder, repr, |model: &Model<u32>| {
        positives(model) >= k as usize
    })
    .unwrap();
    assert_eq!(res.correct, 1 << range);
    assert_eq!(res.total(), 1 << range);
}

#[test]
fn atleast0_equals_repr() {
    let mut encoder = CadicalEncoder::new();

    let range = 10;
    let k = 0;
    let lits = named(1..=range);

    equate_with_shadows(&mut encoder, 1, range + 1, range);

    let constraint = AtleastK { k, lits };

    let repr =
        constraint.encode_constraint_equals_repr(None, &mut encoder.backend, &mut encoder.varmap);
    assert_ne!(repr, 0);

    let res = constraint_equals_repr_tester(&mut encoder, repr, |model: &Model<u32>| {
        positives(model) >= k as usize
    })
    .unwrap();
    assert_eq!(
        res.correct as u32,
        (k..=range).map(|i| binomial(range, i)).sum()
    );
    assert_eq!(res.total(), 1 << range);
}

#[test]
fn normal_exactlyk() {
    let mut encoder = CadicalEncoder::new();

    let range = 10;
    let k = 5;
    let lits = named(0..range);

    encoder.add_constraint(ExactlyK { k, lits });

    let res = retry_until_unsat(&mut encoder, |model: &Model<u32>| {
        assert!(positives(model) == k as usize)
    });
    assert_eq!(res as u32, binomial(range, k));
}

#[test]
fn normal_exactly0() {
    let mut encoder = CadicalEncoder::new();

    let range = 5;
    let k = 0;
    let lits = named(0..range);

    equate_with_shadows(&mut encoder, 0, range, range);

    encoder.add_constraint(ExactlyK { k, lits });

    let res = retry_until_unsat(&mut encoder, |model: &Model<u32>| {
        assert!(positives(model) == k as usize)
    });
    assert_eq!(res as u32, 1);
}

#[test]
fn exactlyk_implies_repr() {
    let mut encoder = CadicalEncoder::new();

    let range = 10;
    let k = 6;
    let lits = named(1..=range);
    let constraint = ExactlyK { k, lits };

    let repr =
        constraint.encode_constraint_implies_repr(None, &mut encoder.backend, &mut encoder.varmap);
    assert!(repr > 0);

    let res = constraint_implies_repr_tester(&mut encoder, repr, |model: &Model<u32>| {
        positives(model) == k as usize
    })
    .unwrap();
    assert_eq!(res.correct as u32, binomial(range, k));
    assert_eq!(res.total(), 1 << range);
}

#[test]
fn exactlyk_equals_repr() {
    let mut encoder = CadicalEncoder::new();

    let range = 10;
    let k = 5;
    let lits = named(1..=range);
    let constraint = ExactlyK { k, lits };

    let repr =
        constraint.encode_constraint_equals_repr(None, &mut encoder.backend, &mut encoder.varmap);
    assert!(repr > 0);

    let res = constraint_equals_repr_tester(&mut encoder, repr, |model: &Model<u32>| {
        positives(model) == k as usize
    })
    .unwrap();
    assert_eq!(res.correct as u32, binomial(range, k));
    assert_eq!(res.total(), 1 << range);
}

#[test]
fn exactly0_implies_repr() {
    let mut encoder = CadicalEncoder::new();

    let range = 10;
    let k = 0;
    let lits = named(1..=range);

    equate_with_shadows(&mut encoder, 1, range + 1, range);

    let constraint = ExactlyK { k, lits };

    let repr = encoder.varmap.new_var();
    constraint.encode_constraint_implies_repr(
        Some(repr),
        &mut encoder.backend,
        &mut encoder.varmap,
    );

    let res = constraint_implies_repr_tester(&mut encoder, repr, |model: &Model<u32>| {
        positives(model) == k as usize
    })
    .unwrap();
    assert_eq!(res.correct, 1);
    assert_eq!(res.total(), 1 << range);
}

#[test]
fn exactly0_equals_repr() {
    let mut encoder = CadicalEncoder::new();

    let range = 10;
    let k = 0;
    let lits = named(1..=range);

    equate_with_shadows(&mut encoder, 1, range + 1, range);

    let constraint = ExactlyK { k, lits };

    let repr =
        constraint.encode_constraint_equals_repr(None, &mut encoder.backend, &mut encoder.varmap);
    assert_ne!(repr, 0);

    let res = constraint_equals_repr_tester(&mut encoder, repr, |model: &Model<u32>| {
        positives(model) == k as usize
    })
    .unwrap();
    assert_eq!(res.correct as u32, 1);
    assert_eq!(res.total(), 1 << range);
}

#[test]
fn normal_same_cardinality() {
    let mut encoder = CadicalEncoder::new();

    let range: u32 = 5;

    let mut constraint = SameCardinality::new();
    constraint
        .add_lits(named(0..range))
        .add_lits(named(range..2 * range));

    encoder.add_constraint(constraint);

    let res = retry_until_unsat(&mut encoder, |model: &Model<u32>| {
        let c1 = positives_in(model, 0, range);
        let c2 = positives_in(model, range, 2 * range);
        assert_eq!(c1, c2);
    });

    assert_eq!(
        res as u32,
        (0..=range).map(|i| binomial(range, i).pow(2)).sum::<u32>()
    );
}

#[test]
fn normal_same_cardinality_different_sizes() {
    let mut encoder = CadicalEncoder::new();

    let range1: u32 = 3;
    let range2: u32 = 5;

    let mut constraint = SameCardinality::new();
    constraint
        .add_lits(named(0..range1))
        .add_lits(named(range1..range1 + range2));

    encoder.add_constraint(constraint);

    let res = retry_until_unsat(&mut encoder, |model: &Model<u32>| {
        let c1 = positives_in(model, 0, range1);
        let c2 = positives_in(model, range1, range1 + range2);
        assert_eq!(c1, c2);
    });

    assert_eq!(
        res as u32,
        (0..=range1)
            .map(|i| binomial(range1, i) * binomial(range2, i))
            .sum::<u32>()
    );
}

#[test]
fn normal_same_cardinality_but_more() {
    let mut encoder = CadicalEncoder::new();

    let range: u32 = 3;

    let mut constraint = SameCardinality::new();
    constraint
        .add_lits(named(0..range))
        .add_lits(named(range..2 * range))
        .add_lits(named(2 * range..3 * range))
        .add_lits(named(3 * range..4 * range));

    encoder.add_constraint(constraint);

    let res = retry_until_unsat(&mut encoder, |model: &Model<u32>| {
        let c1 = positives_in(model, 0, range);
        let c2 = positives_in(model, range, 2 * range);
        let c3 = positives_in(model, 2 * range, 3 * range);
        let c4 = positives_in(model, 3 * range, 4 * range);
        assert_eq!(c1, c2);
        assert_eq!(c1, c3);
        assert_eq!(c1, c4);
    });

    assert_eq!(
        res as u32,
        (0..=range).map(|i| binomial(range, i).pow(4)).sum::<u32>()
    );
}

#[test]
fn same_cardinality_implies_repr() {
    let mut encoder = CadicalEncoder::new();

    let range: u32 = 5;

    let mut constraint = SameCardinality::new();
    constraint
        .add_lits(named(0..range))
        .add_lits(named(range..2 * range));

    let repr =
        constraint.encode_constraint_implies_repr(None, &mut encoder.backend, &mut encoder.varmap);

    let res = constraint_implies_repr_tester(&mut encoder, repr, |model: &Model<u32>| {
        let c1 = positives_in(model, 0, range);
        let c2 = positives_in(model, range, 2 * range);
        c1 == c2
    })
    .unwrap();

    assert_eq!(
        res.correct as u32,
        (0..=range).map(|i| binomial(range, i).pow(2)).sum::<u32>()
    );
    assert_eq!(res.total(), 1 << (2 * range));
}

#[test]
fn same_cardinality_implies_repr_different_sizes() {
    let mut encoder = CadicalEncoder::new();

    let range1: u32 = 5;
    let range2: u32 = 3;

    let mut constraint = SameCardinality::new();
    constraint
        .add_lits(named(0..range1))
        .add_lits(named(range1..range1 + range2));

    let repr =
        constraint.encode_constraint_implies_repr(None, &mut encoder.backend, &mut encoder.varmap);

    let res = constraint_implies_repr_tester(&mut encoder, repr, |model: &Model<u32>| {
        let c1 = positives_in(model, 0, range1);
        let c2 = positives_in(model, range1, range1 + range2);
        c1 == c2
    })
    .unwrap();

    assert_eq!(
        res.correct as u32,
        (0..=range2)
            .map(|i| binomial(range2, i) * binomial(range1, i))
            .sum::<u32>()
    );
    assert_eq!(res.total(), 1 << (range1 + range2));
}

#[test]
fn same_cardinality_implies_repr_but_more() {
    let mut encoder = CadicalEncoder::new();

    let range: u32 = 3;

    let mut constraint = SameCardinality::new();
    constraint
        .add_lits(named(0..range))
        .add_lits(named(range..2 * range))
        .add_lits(named(2 * range..3 * range))
        .add_lits(named(3 * range..4 * range));

    let repr =
        constraint.encode_constraint_implies_repr(None, &mut encoder.backend, &mut encoder.varmap);

    let res = constraint_implies_repr_tester(&mut encoder, repr, |model: &Model<u32>| {
        let c1 = positives_in(model, 0, range);
        let c2 = positives_in(model, range, 2 * range);
        let c3 = positives_in(model, 2 * range, 3 * range);
        let c4 = positives_in(model, 3 * range, 4 * range);
        c1 == c2 && c1 == c3 && c1 == c4
    })
    .unwrap();

    assert_eq!(
        res.correct as u32,
        (0..=range).map(|i| binomial(range, i).pow(4)).sum::<u32>()
    );
    assert_eq!(res.total(), 1 << (4 * range));
}

#[test]
fn same_cardinality_equals_repr() {
    let mut encoder = CadicalEncoder::new();

    let range: u32 = 5;

    let mut constraint = SameCardinality::new();
    constraint
        .add_lits(named(0..range))
        .add_lits(named(range..2 * range));

    let repr =
        constraint.encode_constraint_equals_repr(None, &mut encoder.backend, &mut encoder.varmap);

    let res = constraint_equals_repr_tester(&mut encoder, repr, |model: &Model<u32>| {
        let c1 = positives_in(model, 0, range);
        let c2 = positives_in(model, range, 2 * range);
        c1 == c2
    })
    .unwrap();

    assert_eq!(
        res.correct as u32,
        (0..=range).map(|i| binomial(range, i).pow(2)).sum::<u32>()
    );
    assert_eq!(res.total(), 1 << (2 * range));
}
