//! Enumerating the models of an encoding, and checking a representative
//! against them.

use vstd::prelude::*;
use crate::backend::{all_literals, is_literal, lemma_ints_push, Backend, IncrementalSolver, SolveResult, Solver};
use crate::encoder::Encoder;
use crate::lit::VarType;
use crate::model::{named_ids, value_of_any, Model};
use crate::varmap::SatVar;

verus! {

/// How many assignments of the user variables satisfied the tested
/// constraint, and how many did not.
#[derive(Debug, Clone, Copy, PartialEq, Eq, Structural)]
pub struct ConstraintTestResult {
    pub correct: usize,
    pub incorrect: usize,
}

impl ConstraintTestResult {
    /// The number of assignments seen.
    pub fn total(&self) -> (n: usize)
        requires
            self.correct + self.incorrect <= usize::MAX,
        ensures
            n == self.correct + self.incorrect,
    {
        self.correct + self.incorrect
    }
}

/// What is wrong with a representative.
#[derive(Debug, Clone, Copy, PartialEq, Eq, Structural)]
pub enum ReprFault {
    /// The constraint holds, but the model has the representative false.
    FalseThoughSatisfied,
    /// The constraint holds, but the representative can be false.
    NotForced,
    /// The constraint fails, but the representative cannot be true.
    CannotBeTrue,
    /// The constraint fails, but the representative cannot be false.
    CannotBeFalse,
    /// The constraint fails, but the representative can be true.
    TrueThoughViolated,
    /// The solver gave up on a question.
    NoAnswer,
}

/// The verdict on one assignment of the user variables.
///
/// `holds` says whether the constraint holds under the assignment,
/// `repr_true` whether the model has the representative true, `with_repr`
/// and `with_negation` what the solver answers under the assignment with
/// the representative assumed true and false. Where the constraint holds,
/// the representative must be true and forced. Where it fails, the
/// representative must be able to be false, and must be able to be true
/// exactly if `equal` is not asked for.
pub open spec fn verdict(
    equal: bool,
    holds: bool,
    repr_true: bool,
    with_repr: SolveResult,
    with_negation: SolveResult,
) -> Result<bool, ReprFault> {
    if holds {
        if !repr_true {
            Err(ReprFault::FalseThoughSatisfied)
        } else if with_negation == SolveResult::Unknown {
            Err(ReprFault::NoAnswer)
        } else if with_negation == SolveResult::Sat {
            Err(ReprFault::NotForced)
        } else {
            Ok(true)
        }
    } else {
        if with_repr == SolveResult::Unknown {
            Err(ReprFault::NoAnswer)
        } else if equal && with_repr == SolveResult::Sat {
            Err(ReprFault::TrueThoughViolated)
        } else if !equal && with_repr == SolveResult::Unsat {
            Err(ReprFault::CannotBeTrue)
        } else if with_negation == SolveResult::Unknown {
            Err(ReprFault::NoAnswer)
        } else if with_negation == SolveResult::Unsat {
            Err(ReprFault::CannotBeFalse)
        } else {
            Ok(false)
        }
    }
}

/// Computes `verdict`.
pub fn judge(
    equal: bool,
    holds: bool,
    repr_true: bool,
    with_repr: SolveResult,
    with_negation: SolveResult,
) -> (r: Result<bool, ReprFault>)
    ensures
        r == verdict(equal, holds, repr_true, with_repr, with_negation),
{
    if holds {
        if !repr_true {
            Err(ReprFault::FalseThoughSatisfied)
        } else {
            match with_negation {
                SolveResult::Unknown => Err(ReprFault::NoAnswer),
                SolveResult::Sat => Err(ReprFault::NotForced),
                SolveResult::Unsat => Ok(true),
            }
        }
    } else {
        match with_repr {
            SolveResult::Unknown => {
                return Err(ReprFault::NoAnswer);
            },
            SolveResult::Sat => {
                if equal {
                    return Err(ReprFault::TrueThoughViolated);
                }
            },
            SolveResult::Unsat => {
                if !equal {
                    return Err(ReprFault::CannotBeTrue);
                }
            },
        }
        match with_negation {
            SolveResult::Unknown => Err(ReprFault::NoAnswer),
            SolveResult::Unsat => Err(ReprFault::CannotBeFalse),
            SolveResult::Sat => Ok(false),
        }
    }
}

/// `lits` followed by `last`.
pub fn assumptions_with(lits: &Vec<i32>, last: i32) -> (out: Vec<i32>)
    requires
        all_literals(lits@),
        is_literal(last),
    ensures
        out@ == lits@.push(last),
        all_literals(out@),
{
    let mut out = crate::mock::copy_row(lits);
    out.push(last);
    out
}

/// The clause that rules out the values that `m` gives to the user
/// variables: every user variable with the polarity that it does not have.
pub open spec fn blocking<V: SatVar>(m: Model<V>) -> Seq<int> {
    named_ids(m.names(), m.values(), true, m.names().len() as int)
}

/// Whether the clause stream `after` is the stream `before` followed, one
/// for each of `models` and in their order, by the clauses that rule the
/// models out, and every one of `models` assigns the variables `names`.
pub open spec fn enumerated<V: SatVar>(
    names: Seq<Option<V>>,
    before: Seq<Seq<int>>,
    after: Seq<Seq<int>>,
    models: Seq<Model<V>>,
) -> bool {
    &&& after.len() == before.len() + models.len()
    &&& after.take(before.len() as int) == before
    &&& forall|i: int|
        0 <= i < models.len() ==> (#[trigger] models[i]).wf() && models[i].names() == names
            && after[before.len() + i] == blocking(models[i])
}

/// Whether `pred` was shown every one of `models`.
pub open spec fn shown<V: SatVar, F: Fn(&Model<V>)>(pred: F, models: Seq<Model<V>>) -> bool {
    forall|i: int| 0 <= i < models.len() ==> call_ensures(pred, (&(#[trigger] models[i]),), ())
}

/// Whether `m` has the literal `repr` of an anonymous variable true.
pub open spec fn repr_true_in<V: SatVar>(m: Model<V>, repr: i32) -> bool {
    value_of_any(m.names(), m.values(), VarType::Unnamed(repr)) == Some(true)
}

/// Whether `held` says of every one of `models` what `pred` said of it: that
/// the constraint holds, or that it fails; and every model of which it
/// holds has the representative true.
pub open spec fn judged<V: SatVar, F: Fn(&Model<V>) -> bool>(
    pred: F,
    repr: i32,
    models: Seq<Model<V>>,
    held: Seq<bool>,
) -> bool {
    &&& held.len() == models.len()
    &&& forall|i: int|
        0 <= i < models.len() ==> call_ensures(pred, (&(#[trigger] models[i]),), held[i]) && (
        held[i] ==> repr_true_in(models[i], repr))
}

/// How many of the first `i` entries of `held` are true.
pub open spec fn count_held(held: Seq<bool>, i: int) -> int
    decreases i,
{
    if i <= 0 {
        0
    } else {
        count_held(held, i - 1) + if held[i - 1] {
            1int
        } else {
            0int
        }
    }
}

/// The count over the entries so far does not change when one is added.
pub proof fn lemma_count_held_push(held: Seq<bool>, h: bool, i: int)
    requires
        0 <= i <= held.len(),
    ensures
        count_held(held.push(h), i) == count_held(held, i),
        0 <= count_held(held, i) <= i,
    decreases i,
{
    if i > 0 {
        lemma_count_held_push(held, h, i - 1);
        assert(held.push(h)[i - 1] == held[i - 1]);
    }
}

/// One more model was ruled out.
pub proof fn lemma_enumerated_push<V: SatVar>(
    names: Seq<Option<V>>,
    before: Seq<Seq<int>>,
    after: Seq<Seq<int>>,
    models: Seq<Model<V>>,
    m: Model<V>,
)
    requires
        enumerated(names, before, after, models),
        m.wf(),
        m.names() == names,
    ensures
        enumerated(names, before, after.push(blocking(m)), models.push(m)),
{
    let after2 = after.push(blocking(m));
    let models2 = models.push(m);
    assert(after2.take(before.len() as int) =~= after.take(before.len() as int));
    assert forall|i: int| 0 <= i < models2.len() implies (#[trigger] models2[i]).wf()
        && models2[i].names() == names && after2[before.len() + i] == blocking(models2[i]) by {
        if i < models.len() {
            assert(models2[i] == models[i]);
            assert(after2[before.len() + i] == after[before.len() + i]);
        }
    }
}

/// Whether the fault `f` is the verdict on a model over the variables
/// `names`: on what `pred` said of the model, on whether the model has the
/// representative true, and on some pair of answers of the solver.
pub open spec fn faulted<V: SatVar, F: Fn(&Model<V>) -> bool>(
    pred: F,
    names: Seq<Option<V>>,
    repr: i32,
    equal: bool,
    f: ReprFault,
) -> bool {
    exists|m: Model<V>, holds: bool, with_repr: SolveResult, with_negation: SolveResult|
        {
            &&& m.wf()
            &&& m.names() == names
            &&& call_ensures(pred, (&m,), holds)
            &&& #[trigger] verdict(
                equal,
                holds,
                repr_true_in(m, repr),
                with_repr,
                with_negation,
            ) == Err::<bool, ReprFault>(f)
        }
}

/// Counts the models of the encoding over the user variables: solves,
/// shows the model to `pred`, rules the model's assignment of the user
/// variables out with one more clause, and repeats until the solver finds
/// no further model.
///
/// Whatever the solver answers: the clauses added are those that rule out
/// the models found, in the order in which they were found; `pred` was
/// shown each of them; their number is returned; and, unless as many were
/// found as can be counted, the solver holds no model in the end.
pub fn retry_until_unsat<V: SatVar, S: Solver, F: Fn(&Model<V>)>(
    encoder: &mut Encoder<V, S>,
    pred: F,
) -> (count: usize)
    requires
        old(encoder).varmap.wf(),
        forall|m: Model<V>| m.wf() ==> call_requires(pred, (&m,)),
    ensures
        final(encoder).varmap == old(encoder).varmap,
        final(encoder).debug == old(encoder).debug,
        final(encoder).backend.clauses().len() == old(encoder).backend.clauses().len() + count,
        final(encoder).backend.clauses().take(old(encoder).backend.clauses().len() as int) == old(
            encoder,
        ).backend.clauses(),
        exists|models: Seq<Model<V>>|
            {
                &&& #[trigger] enumerated(
                    old(encoder).varmap@,
                    old(encoder).backend.clauses(),
                    final(encoder).backend.clauses(),
                    models,
                )
                &&& shown(pred, models)
                &&& models.len() == count
            },
        count < usize::MAX ==> !final(encoder).backend.has_model(),
{
    let mut count: usize = 0;
    let ghost start = encoder.backend.clauses();
    let ghost names = encoder.varmap@;
    let ghost mut models: Seq<Model<V>> = Seq::empty();
    assert(start.take(start.len() as int) =~= start);
    while count < usize::MAX
        invariant
            encoder.varmap.wf(),
            encoder.varmap == old(encoder).varmap,
            encoder.debug == old(encoder).debug,
            start == old(encoder).backend.clauses(),
            names == old(encoder).varmap@,
            enumerated(names, start, encoder.backend.clauses(), models),
            shown(pred, models),
            models.len() == count,
            forall|m: Model<V>| m.wf() ==> call_requires(pred, (&m,)),
        decreases usize::MAX - count,
    {
        match encoder.solve() {
            Some(model) => {
                pred(&model);
                let clause = model.named_literals(true);
                let ghost before = encoder.backend.clauses();
                encoder.backend.add_clause(&clause);
                proof {
                    lemma_enumerated_push(names, start, before, models, model);
                    let ghost grown = models.push(model);
                    assert forall|i: int| 0 <= i < grown.len() implies call_ensures(
                        pred,
                        (&(#[trigger] grown[i]),),
                        (),
                    ) by {
                        if i < models.len() {
                            assert(grown[i] == models[i]);
                        }
                    }
                    models = grown;
                }
                count += 1;
            },
            None => {
                return count;
            },
        }
    }
    count
}

/// Checks a representative against every assignment of the user variables
/// that the encoding admits, and counts on how many of them the constraint
/// holds, as `pred` tells. The first assignment whose `verdict` is a fault
/// ends the check with that fault.
///
/// Whatever the solver answers: the clauses added are those that rule out
/// the models that passed, in the order in which they were found; `pred`
/// was asked of each of them, and each of which it said that the constraint
/// holds has the representative true. A count is returned only where every
/// model that was found passed: then `correct` is the number of those of
/// which `pred` said that the constraint holds, `incorrect` the number of
/// the others, and, unless as many were found as can be counted, the solver
/// holds no model in the end. A fault is the verdict on a model that the
/// solver found.
pub fn check_repr<V: SatVar, S: IncrementalSolver, F: Fn(&Model<V>) -> bool>(
    encoder: &mut Encoder<V, S>,
    repr: i32,
    pred: F,
    equal: bool,
) -> (r: Result<ConstraintTestResult, ReprFault>)
    requires
        old(encoder).varmap.wf(),
        is_literal(repr),
        forall|m: Model<V>| m.wf() ==> call_requires(pred, (&m,)),
    ensures
        final(encoder).varmap == old(encoder).varmap,
        final(encoder).debug == old(encoder).debug,
        final(encoder).backend.clauses().take(old(encoder).backend.clauses().len() as int) == old(
            encoder,
        ).backend.clauses(),
        r matches Ok(res) ==> final(encoder).backend.clauses().len() == old(
            encoder,
        ).backend.clauses().len() + res.correct + res.incorrect,
        exists|models: Seq<Model<V>>, held: Seq<bool>|
            {
                &&& #[trigger] enumerated(
                    old(encoder).varmap@,
                    old(encoder).backend.clauses(),
                    final(encoder).backend.clauses(),
                    models,
                )
                &&& #[trigger] judged(pred, repr, models, held)
                &&& r matches Ok(res) ==> res.correct == count_held(held, held.len() as int)
                    && res.correct + res.incorrect == held.len()
            },
        r matches Ok(res) ==> (res.correct + res.incorrect < usize::MAX ==> !final(encoder)
            .backend.has_model()),
        r matches Err(f) ==> faulted(pred, old(encoder).varmap@, repr, equal, f),
{
    let mut correct: usize = 0;
    let mut incorrect: usize = 0;
    let ghost start = encoder.backend.clauses();
    let ghost names = encoder.varmap@;
    let ghost mut models: Seq<Model<V>> = Seq::empty();
    let ghost mut held: Seq<bool> = Seq::empty();
    assert(start.take(start.len() as int) =~= start);
    while correct < usize::MAX - incorrect
        invariant
            encoder.varmap.wf(),
            encoder.varmap == old(encoder).varmap,
            encoder.debug == old(encoder).debug,
            is_literal(repr),
            start == old(encoder).backend.clauses(),
            names == old(encoder).varmap@,
            correct + incorrect <= usize::MAX,
            enumerated(names, start, encoder.backend.clauses(), models),
            judged(pred, repr, models, held),
            correct == count_held(held, held.len() as int),
            correct + incorrect == held.len(),
            forall|m: Model<V>| m.wf() ==> call_requires(pred, (&m,)),
        decreases usize::MAX - correct - incorrect,
    {
        match encoder.solve() {
            Some(model) => {
                let holds = pred(&model);
                let repr_true = model.lit_internal(VarType::Unnamed(repr));
                let fixed = model.named_literals(false);
                let with_repr = encoder.backend.assumption_solve(&assumptions_with(&fixed, repr));
                let with_negation = encoder.backend.assumption_solve(
                    &assumptions_with(&fixed, -repr),
                );
                match judge(equal, holds, repr_true, with_repr, with_negation) {
                    Ok(true) => {
                        correct += 1;
                    },
                    Ok(false) => {
                        incorrect += 1;
                    },
                    Err(fault) => {
                        assert(verdict(
                            equal,
                            holds,
                            repr_true_in(model, repr),
                            with_repr,
                            with_negation,
                        ) == Err::<bool, ReprFault>(fault));
                        return Err(fault);
                    },
                }
                let clause = model.named_literals(true);
                let ghost before = encoder.backend.clauses();
                encoder.backend.add_clause(&clause);
                proof {
                    lemma_enumerated_push(names, start, before, models, model);
                    lemma_count_held_push(held, holds, held.len() as int);
                    let ghost grown = models.push(model);
                    let ghost told = held.push(holds);
                    assert forall|i: int| 0 <= i < grown.len() implies call_ensures(
                        pred,
                        (&(#[trigger] grown[i]),),
                        told[i],
                    ) && (told[i] ==> repr_true_in(grown[i], repr)) by {
                        if i < models.len() {
                            assert(grown[i] == models[i]);
                            assert(told[i] == held[i]);
                        }
                    }
                    models = grown;
                    held = told;
                }
            },
            None => {
                return Ok(ConstraintTestResult { correct, incorrect });
            },
        }
    }
    Ok(ConstraintTestResult { correct, incorrect })
}

/// Checks a representative that shall be true whenever the constraint
/// holds, and free where it fails: `check_repr` for a one-sided
/// representative.
pub fn constraint_implies_repr_tester<V: SatVar, S: IncrementalSolver, F: Fn(&Model<V>) -> bool>(
    encoder: &mut Encoder<V, S>,
    repr: i32,
    pred: F,
) -> (r: Result<ConstraintTestResult, ReprFault>)
    requires
        old(encoder).varmap.wf(),
        is_literal(repr),
        forall|m: Model<V>| m.wf() ==> call_requires(pred, (&m,)),
    ensures
        final(encoder).varmap == old(encoder).varmap,
        final(encoder).debug == old(encoder).debug,
        final(encoder).backend.clauses().take(old(encoder).backend.clauses().len() as int) == old(
            encoder,
        ).backend.clauses(),
        r matches Ok(res) ==> final(encoder).backend.clauses().len() == old(
            encoder,
        ).backend.clauses().len() + res.correct + res.incorrect,
        exists|models: Seq<Model<V>>, held: Seq<bool>|
            {
                &&& #[trigger] enumerated(
                    old(encoder).varmap@,
                    old(encoder).backend.clauses(),
                    final(encoder).backend.clauses(),
                    models,
                )
                &&& #[trigger] judged(pred, repr, models, held)
                &&& r matches Ok(res) ==> res.correct == count_held(held, held.len() as int)
                    && res.correct + res.incorrect == held.len()
            },
        r matches Ok(res) ==> (res.correct + res.incorrect < usize::MAX ==> !final(encoder)
            .backend.has_model()),
        r matches Err(f) ==> faulted(pred, old(encoder).varmap@, repr, false, f),
{
    check_repr(encoder, repr, pred, false)
}

/// Checks a representative that shall be true exactly if the constraint
/// holds: `check_repr` for a two-sided representative.
pub fn constraint_equals_repr_tester<V: SatVar, S: IncrementalSolver, F: Fn(&Model<V>) -> bool>(
    encoder: &mut Encoder<V, S>,
    repr: i32,
    pred: F,
) -> (r: Result<ConstraintTestResult, ReprFault>)
    requires
        old(encoder).varmap.wf(),
        is_literal(repr),
        forall|m: Model<V>| m.wf() ==> call_requires(pred, (&m,)),
    ensures
        final(encoder).varmap == old(encoder).varmap,
        final(encoder).debug == old(encoder).debug,
        final(encoder).backend.clauses().take(old(encoder).backend.clauses().len() as int) == old(
            encoder,
        ).backend.clauses(),
        r matches Ok(res) ==> final(encoder).backend.clauses().len() == old(
            encoder,
        ).backend.clauses().len() + res.correct + res.incorrect,
        exists|models: Seq<Model<V>>, held: Seq<bool>|
            {
                &&& #[trigger] enumerated(
                    old(encoder).varmap@,
                    old(encoder).backend.clauses(),
                    final(encoder).backend.clauses(),
                    models,
                )
                &&& #[trigger] judged(pred, repr, models, held)
                &&& r matches Ok(res) ==> res.correct == count_held(held, held.len() as int)
                    && res.correct + res.incorrect == held.len()
            },
        r matches Ok(res) ==> (res.correct + res.incorrect < usize::MAX ==> !final(encoder)
            .backend.has_model()),
        r matches Err(f) ==> faulted(pred, old(encoder).varmap@, repr, true, f),
{
    check_repr(encoder, repr, pred, true)
}

} // verus!
