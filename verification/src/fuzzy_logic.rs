//! Fuzzy logic vocabulary: atomic propositions, the inference and
//! defuzzification strategies, engine statistics and errors, and the check
//! that a rule refers only to registered variables and their sets.

use crate::fuzzy_logic_engine::{find_var, find_var_exec, has_set, set_names, NameFault, VarNames};
use vstd::prelude::*;

verus! {

/// Errors produced by the fuzzy logic engine and related types.
#[derive(Debug, Clone)]
pub enum FuzzyError {
    /// A referenced variable does not exist in the engine.
    VariableNotFound(String),
    /// A referenced set does not exist inside a variable.
    SetNotFound { variable: String, set: String },
    /// Attempt to add a variable that is already registered.
    DuplicateVariable(String),
    /// `infer` was called but no rule targets the requested output variable.
    NoRulesForOutput(String),
    /// A numerical issue prevented completing the computation.
    NumericalError(String),
}

/// An atomic fuzzy proposition: "*variable* IS *set*".
#[derive(Debug, Clone)]
pub struct FuzzyProposition {
    /// Name of the linguistic variable.
    pub variable: String,
    /// Name of the fuzzy set.
    pub set: String,
}

impl FuzzyProposition {
    /// Create a new proposition.
    pub fn new<V: Into<String>, S: Into<String>>(variable: V, set: S) -> (p: Self)
        ensures
            call_ensures(V::into, (variable,), p.variable),
            call_ensures(S::into, (set,), p.set),
    {
        FuzzyProposition { variable: variable.into(), set: set.into() }
    }
}

/// Fuzzy inference strategy.
#[derive(Debug, Clone, Copy, PartialEq, Eq, Structural)]
pub enum InferenceMethod {
    /// Mamdani min-of-max inference with aggregation and defuzzification.
    Mamdani,
    /// Takagi–Sugeno–Kang (TSK / Sugeno) weighted centroid aggregation.
    Sugeno,
}

/// Defuzzification method (used with Mamdani inference).
#[derive(Debug, Clone, Copy, PartialEq, Eq, Structural)]
pub enum DefuzzMethod {
    /// Centre-of-gravity (centroid) numerical integration.
    Centroid,
    /// Mean of the x-values where the aggregate membership is maximal.
    MeanOfMax,
    /// Rightmost x where the aggregate membership is maximal.
    LargestOfMax,
}

/// Snapshot of engine configuration statistics.
#[derive(Debug, Clone)]
pub struct FuzzyStats {
    /// Number of registered linguistic variables.
    pub variable_count: usize,
    /// Number of registered rules.
    pub rule_count: usize,
    /// Name of the inference method in use.
    pub inference: String,
    /// Name of the defuzzification method in use.
    pub defuzz: String,
}

/// The reference fault of proposition `p`: an unregistered variable, or a set
/// its variable does not have.
pub open spec fn prop_fault(p: FuzzyProposition, vars: Seq<VarNames>) -> Option<NameFault> {
    match find_var(vars, p.variable@) {
        None => Some(NameFault::UnknownVariable(p.variable@)),
        Some(v) => if set_names(v).contains(p.set@) {
            None
        } else {
            Some(NameFault::UnknownSet(p.variable@, p.set@))
        },
    }
}

/// The first reference fault of a rule: its antecedents in order, then its
/// consequent.
pub open spec fn rule_fault(antecedents: Seq<FuzzyProposition>, consequent: FuzzyProposition, vars: Seq<VarNames>) -> Option<NameFault>
    decreases antecedents.len(),
{
    if antecedents.len() == 0 {
        prop_fault(consequent, vars)
    } else {
        match prop_fault(antecedents[0], vars) {
            Some(f) => Some(f),
            None => rule_fault(antecedents.drop_first(), consequent, vars),
        }
    }
}

/// `r` reports fault `f`, or success when there is none.
pub open spec fn reports_fault(r: Result<(), FuzzyError>, f: Option<NameFault>) -> bool {
    match f {
        None => r is Ok,
        Some(NameFault::UnknownVariable(v)) => r matches Err(FuzzyError::VariableNotFound(n)) && n@
            == v,
        Some(NameFault::UnknownSet(v, s)) => r matches Err(FuzzyError::SetNotFound { variable, set })
            && variable@ == v && set@ == s,
    }
}

fn check_proposition(p: &FuzzyProposition, vars: &Vec<VarNames>) -> (r: Result<(), FuzzyError>)
    ensures
        reports_fault(r, prop_fault(*p, vars@)),
{
    match find_var_exec(vars, &p.variable) {
        None => Err(FuzzyError::VariableNotFound(p.variable.clone())),
        Some(i) => {
            if has_set(&vars[i], &p.set) {
                Ok(())
            } else {
                Err(FuzzyError::SetNotFound { variable: p.variable.clone(), set: p.set.clone() })
            }
        },
    }
}

/// Check that every proposition of a rule names a registered variable
/// (looked up among `vars`, the last of a name counting) and one of its sets;
/// report the first that does not, antecedents first and then the
/// consequent: `VariableNotFound` for an unknown variable, `SetNotFound` for
/// an unknown set.
pub fn check_rule_references(
    antecedents: &Vec<FuzzyProposition>,
    consequent: &FuzzyProposition,
    vars: &Vec<VarNames>,
) -> (r: Result<(), FuzzyError>)
    ensures
        reports_fault(r, rule_fault(antecedents@, *consequent, vars@)),
{
    let mut k: usize = 0;
    proof {
        assert(antecedents@.skip(0) =~= antecedents@);
    }
    while k < antecedents.len()
        invariant
            k <= antecedents@.len(),
            rule_fault(antecedents@, *consequent, vars@) == rule_fault(
                antecedents@.skip(k as int),
                *consequent,
                vars@,
            ),
        decreases antecedents@.len() - k,
    {
        let ghost rest = antecedents@.skip(k as int);
        proof {
            assert(rest[0] == antecedents@[k as int]);
            assert(rest.drop_first() =~= antecedents@.skip(k + 1));
        }
        let c = check_proposition(&antecedents[k], vars);
        match c {
            Err(e) => {
                return Err(e);
            },
            Ok(()) => {},
        }
        k += 1;
    }
    proof {
        assert(antecedents@.skip(k as int) =~= Seq::<FuzzyProposition>::empty());
    }
    check_proposition(consequent, vars)
}

} // verus!
