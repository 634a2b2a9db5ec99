//! Mamdani fuzzy inference: rule expressions and the checks made on them.
//!
//! A rule's antecedent and consequent are [`FuzzyExpr`] trees over atomic
//! propositions "variable IS set". Before an engine accepts a rule, every
//! proposition must name a known variable and one of its sets:
//! [`validate_expr_static`] finds the first proposition that does not, in
//! left-to-right order, looking a name up among the input variables first.

use vstd::prelude::*;
use vstd::string::StrSliceExecFns;

verus! {

/// Errors produced by the fuzzy inference engine.
#[derive(Debug, Clone)]
pub enum FuzzyError {
    /// A referenced variable does not exist in the configuration.
    VariableNotFound(String),
    /// A referenced set does not exist inside a variable.
    SetNotFound {
        /// Variable name.
        var: String,
        /// Set name.
        set: String,
    },
    /// All rules produced zero activation; defuzzification is undefined.
    NoRulesActivated,
    /// Defuzzification failed (e.g., all aggregate membership values are zero).
    DefuzzFailed(String),
    /// Engine configuration is invalid.
    ConfigurationError(String),
}

/// A recursive expression tree for fuzzy antecedents and consequents.
#[derive(Debug)]
pub enum FuzzyExpr {
    /// Atomic proposition: variable IS set.
    Is {
        /// Variable name.
        var: String,
        /// Set name.
        set: String,
    },
    /// Logical AND (Zadeh min T-norm).
    And(Box<FuzzyExpr>, Box<FuzzyExpr>),
    /// Logical OR (Zadeh max S-norm).
    Or(Box<FuzzyExpr>, Box<FuzzyExpr>),
    /// Logical NOT (standard complement: `1 - x`).
    Not(Box<FuzzyExpr>),
    /// Concentration / "very": squares the membership degree (`x²`).
    Very(Box<FuzzyExpr>),
    /// Dilation / "somewhat": square-root of the membership degree (`√x`).
    Somewhat(Box<FuzzyExpr>),
}

impl Clone for FuzzyExpr {
    fn clone(&self) -> (res: Self)
        ensures
            res == *self,
        decreases self,
    {
        match self {
            FuzzyExpr::Is { var, set } => FuzzyExpr::Is { var: var.clone(), set: set.clone() },
            FuzzyExpr::And(l, r) => FuzzyExpr::And(Box::new((**l).clone()), Box::new((**r).clone())),
            FuzzyExpr::Or(l, r) => FuzzyExpr::Or(Box::new((**l).clone()), Box::new((**r).clone())),
            FuzzyExpr::Not(i) => FuzzyExpr::Not(Box::new((**i).clone())),
            FuzzyExpr::Very(i) => FuzzyExpr::Very(Box::new((**i).clone())),
            FuzzyExpr::Somewhat(i) => FuzzyExpr::Somewhat(Box::new((**i).clone())),
        }
    }
}

/// Defuzzification method used to convert the aggregated output to a crisp value.
#[derive(Debug, Clone, Copy, PartialEq, Eq, Structural)]
pub enum DefuzzMethod {
    /// Centre-of-gravity (centroid) numerical integration.
    Centroid,
    /// Bisector — point dividing the area under the aggregated MF in half.
    Bisector,
    /// Mean of all x-values where the aggregated MF reaches its maximum.
    MeanOfMaxima,
    /// Largest (rightmost) x where the aggregated MF reaches its maximum.
    LargestOfMaxima,
    /// Smallest (leftmost) x where the aggregated MF reaches its maximum.
    SmallestOfMaxima,
}

impl Default for DefuzzMethod {
    fn default() -> (m: Self)
        ensures
            m == DefuzzMethod::Centroid,
    {
        DefuzzMethod::Centroid
    }
}

// ─── Which variable an expression speaks of ─────────────────────────────────

/// Some proposition of `e` is about variable `name`.
pub open spec fn targets(e: FuzzyExpr, name: Seq<char>) -> bool
    decreases e,
{
    match e {
        FuzzyExpr::Is { var, .. } => var@ == name,
        FuzzyExpr::And(l, r) => targets(*l, name) || targets(*r, name),
        FuzzyExpr::Or(l, r) => targets(*l, name) || targets(*r, name),
        FuzzyExpr::Not(i) => targets(*i, name),
        FuzzyExpr::Very(i) => targets(*i, name),
        FuzzyExpr::Somewhat(i) => targets(*i, name),
    }
}

fn str_eq(a: &str, b: &str) -> (r: bool)
    ensures
        r == (a@ == b@),
{
    let la = a.unicode_len();
    let lb = b.unicode_len();
    if la != lb {
        return false;
    }
    let mut i: usize = 0;
    while i < la
        invariant
            la == a@.len(),
            lb == b@.len(),
            la == lb,
            i <= la,
            forall|k: int| 0 <= k < i ==> a@[k] == b@[k],
        decreases la - i,
    {
        if a.get_char(i) != b.get_char(i) {
            return false;
        }
        i += 1;
    }
    assert(a@ =~= b@);
    true
}

/// Whether some proposition of `expr` is about variable `var_name`.
pub fn expr_targets_var(expr: &FuzzyExpr, var_name: &str) -> (b: bool)
    ensures
        b == targets(*expr, var_name@),
    decreases expr,
{
    match expr {
        FuzzyExpr::Is { var, .. } => str_eq(var.as_str(), var_name),
        FuzzyExpr::And(l, r) => expr_targets_var(l, var_name) || expr_targets_var(r, var_name),
        FuzzyExpr::Or(l, r) => expr_targets_var(l, var_name) || expr_targets_var(r, var_name),
        FuzzyExpr::Not(inner) => expr_targets_var(inner, var_name),
        FuzzyExpr::Very(inner) => expr_targets_var(inner, var_name),
        FuzzyExpr::Somewhat(inner) => expr_targets_var(inner, var_name),
    }
}

/// The set a consequent assigns to `var_name`: `Some(set)` exactly when the
/// expression is the single proposition `var_name IS set`.
pub fn consequent_set_name(expr: &FuzzyExpr, var_name: &str) -> (r: Option<String>)
    ensures
        match *expr {
            FuzzyExpr::Is { var, set } => if var@ == var_name@ {
                r matches Some(s) && s@ == set@
            } else {
                r is None
            },
            _ => r is None,
        },
{
    match expr {
        FuzzyExpr::Is { var, set } => {
            if str_eq(var.as_str(), var_name) {
                Some(set.clone())
            } else {
                None
            }
        },
        _ => None,
    }
}

// ─── Checking the names an expression uses ──────────────────────────────────

/// What an expression check needs of a variable: its name and the names of
/// its sets.
#[derive(Debug, Clone)]
pub struct VarNames {
    /// Variable name.
    pub name: String,
    /// Names of the variable's fuzzy sets.
    pub sets: Vec<String>,
}

/// The set names of a variable, as character sequences.
pub open spec fn set_names(v: VarNames) -> Seq<Seq<char>> {
    v.sets@.map_values(|s: String| s@)
}

/// The last variable of `vars` named `name`.
pub open spec fn find_var(vars: Seq<VarNames>, name: Seq<char>) -> Option<VarNames>
    decreases vars.len(),
{
    if vars.len() == 0 {
        None
    } else if vars.last().name@ == name {
        Some(vars.last())
    } else {
        find_var(vars.drop_last(), name)
    }
}

/// The variable named `name`: an input variable if there is one, else an
/// output variable.
pub open spec fn lookup_var(inputs: Seq<VarNames>, outputs: Seq<VarNames>, name: Seq<char>) -> Option<
    VarNames,
> {
    match find_var(inputs, name) {
        Some(v) => Some(v),
        None => find_var(outputs, name),
    }
}

/// A name fault of an expression: an unknown variable, or an unknown set of
/// a known variable.
pub enum NameFault {
    UnknownVariable(Seq<char>),
    UnknownSet(Seq<char>, Seq<char>),
}

/// The first name fault of `e`, propositions taken left to right.
pub open spec fn first_fault(e: FuzzyExpr, inputs: Seq<VarNames>, outputs: Seq<VarNames>) -> Option<
    NameFault,
>
    decreases e,
{
    match e {
        FuzzyExpr::Is { var, set } => match lookup_var(inputs, outputs, var@) {
            None => Some(NameFault::UnknownVariable(var@)),
            Some(v) => if set_names(v).contains(set@) {
                None
            } else {
                Some(NameFault::UnknownSet(var@, set@))
            },
        },
        FuzzyExpr::And(l, r) => match first_fault(*l, inputs, outputs) {
            Some(f) => Some(f),
            None => first_fault(*r, inputs, outputs),
        },
        FuzzyExpr::Or(l, r) => match first_fault(*l, inputs, outputs) {
            Some(f) => Some(f),
            None => first_fault(*r, inputs, outputs),
        },
        FuzzyExpr::Not(i) => first_fault(*i, inputs, outputs),
        FuzzyExpr::Very(i) => first_fault(*i, inputs, outputs),
        FuzzyExpr::Somewhat(i) => first_fault(*i, inputs, outputs),
    }
}

/// `r` reports fault `f`, or success when there is none.
pub open spec fn reports(r: Result<(), FuzzyError>, f: Option<NameFault>) -> bool {
    match f {
        None => r is Ok,
        Some(NameFault::UnknownVariable(v)) => r matches Err(FuzzyError::VariableNotFound(n)) && n@
            == v,
        Some(NameFault::UnknownSet(v, s)) => r matches Err(FuzzyError::SetNotFound { var, set })
            && var@ == v && set@ == s,
    }
}

pub(crate) fn find_var_exec(vars: &Vec<VarNames>, name: &String) -> (r: Option<usize>)
    ensures
        match find_var(vars@, name@) {
            None => r is None,
            Some(v) => r matches Some(i) && i < vars@.len() && vars@[i as int] == v,
        },
{
    let mut i = vars.len();
    assert(vars@.take(i as int) =~= vars@);
    while i > 0
        invariant
            i <= vars@.len(),
            find_var(vars@, name@) == find_var(vars@.take(i as int), name@),
        decreases i,
    {
        i -= 1;
        assert(vars@.take(i + 1).drop_last() =~= vars@.take(i as int));
        assert(vars@.take(i + 1).last() == vars@[i as int]);
        if vars[i].name == *name {
            return Some(i);
        }
    }
    None
}

pub(crate) fn has_set(v: &VarNames, set: &String) -> (b: bool)
    ensures
        b == set_names(*v).contains(set@),
{
    let mut k: usize = 0;
    while k < v.sets.len()
        invariant
            k <= v.sets@.len(),
            forall|j: int| 0 <= j < k ==> v.sets@[j]@ != set@,
        decreases v.sets@.len() - k,
    {
        if v.sets[k] == *set {
            assert(set_names(*v)[k as int] == set@);
            return true;
        }
        k += 1;
    }
    proof {
        if set_names(*v).contains(set@) {
            let j = choose|j: int| 0 <= j < set_names(*v).len() && set_names(*v)[j] == set@;
            assert(v.sets@[j]@ == set@);
        }
    }
    false
}

/// Check that every proposition of `expr` names a known variable and one of
/// its sets, looking names up among `inputs` first and then `outputs` (the
/// last variable of a list with a name counts). Reports the first
/// proposition, left to right, that fails: `VariableNotFound` for an unknown
/// variable, `SetNotFound` for an unknown set.
pub fn validate_expr_static(expr: &FuzzyExpr, inputs: &Vec<VarNames>, outputs: &Vec<VarNames>) -> (r:
    Result<(), FuzzyError>)
    ensures
        reports(r, first_fault(*expr, inputs@, outputs@)),
    decreases expr,
{
    match expr {
        FuzzyExpr::Is { var, set } => {
            let found = match find_var_exec(inputs, var) {
                Some(i) => Some(&inputs[i]),
                None => match find_var_exec(outputs, var) {
                    Some(j) => Some(&outputs[j]),
                    None => None,
                },
            };
            match found {
                None => Err(FuzzyError::VariableNotFound(var.clone())),
                Some(v) => {
                    if has_set(v, set) {
                        Ok(())
                    } else {
                        Err(FuzzyError::SetNotFound { var: var.clone(), set: set.clone() })
                    }
                },
            }
        },
        FuzzyExpr::And(l, r) => {
            let a = validate_expr_static(l, inputs, outputs);
            if a.is_err() {
                return a;
            }
            validate_expr_static(r, inputs, outputs)
        },
        FuzzyExpr::Or(l, r) => {
            let a = validate_expr_static(l, inputs, outputs);
            if a.is_err() {
                return a;
            }
            validate_expr_static(r, inputs, outputs)
        },
        FuzzyExpr::Not(inner) => validate_expr_static(inner, inputs, outputs),
        FuzzyExpr::Very(inner) => validate_expr_static(inner, inputs, outputs),
        FuzzyExpr::Somewhat(inner) => validate_expr_static(inner, inputs, outputs),
    }
}

} // verus!
