use ipfrs_tensorlogic::fuzzy_logic::{FuzzyProposition, InferenceMethod};
use ipfrs_tensorlogic::fuzzy_logic_engine::{
    consequent_set_name, expr_targets_var, validate_expr_static, DefuzzMethod, FuzzyError, FuzzyExpr,
    VarNames,
};

fn is(var: &str, set: &str) -> FuzzyExpr {
    FuzzyExpr::Is { var: var.to_string(), set: set.to_string() }
}

fn names(name: &str, sets: &[&str]) -> VarNames {
    VarNames { name: name.to_string(), sets: sets.iter().map(|s| s.to_string()).collect() }
}

#[test]
fn defuzz_method_default_is_centroid() {
    assert_eq!(DefuzzMethod::default(), DefuzzMethod::Centroid);
}

#[test]
fn targets_var_looks_through_connectives() {
    let e = FuzzyExpr::And(
        Box::new(is("temp", "hot")),
        Box::new(FuzzyExpr::Not(Box::new(FuzzyExpr::Very(Box::new(is("humidity", "high")))))),
    );
    assert!(expr_targets_var(&e, "temp"));
    assert!(expr_targets_var(&e, "humidity"));
    assert!(!expr_targets_var(&e, "fan"));
    let o = FuzzyExpr::Or(Box::new(is("a", "x")), Box::new(FuzzyExpr::Somewhat(Box::new(is("b", "y")))));
    assert!(expr_targets_var(&o, "b"));
    assert!(!expr_targets_var(&o, "c"));
}

#[test]
fn consequent_set_only_for_direct_proposition() {
    assert_eq!(consequent_set_name(&is("fan", "fast"), "fan"), Some("fast".to_string()));
    assert_eq!(consequent_set_name(&is("fan", "fast"), "heater"), None);
    let wrapped = FuzzyExpr::Very(Box::new(is("fan", "fast")));
    assert_eq!(consequent_set_name(&wrapped, "fan"), None);
}

#[test]
fn validate_reports_first_fault() {
    let inputs = vec![names("temp", &["cold", "hot"])];
    let outputs = vec![names("fan", &["slow", "fast"])];
    assert!(validate_expr_static(&is("temp", "hot"), &inputs, &outputs).is_ok());
    assert!(validate_expr_static(&is("fan", "fast"), &inputs, &outputs).is_ok());
    match validate_expr_static(&is("pressure", "low"), &inputs, &outputs) {
        Err(FuzzyError::VariableNotFound(v)) => assert_eq!(v, "pressure"),
        other => panic!("unexpected {:?}", other),
    }
    match validate_expr_static(&is("temp", "warm"), &inputs, &outputs) {
        Err(FuzzyError::SetNotFound { var, set }) => {
            assert_eq!(var, "temp");
            assert_eq!(set, "warm");
        }
        other => panic!("unexpected {:?}", other),
    }
    // The left operand's fault is the one reported.
    let both = FuzzyExpr::And(Box::new(is("temp", "warm")), Box::new(is("nope", "x")));
    assert!(matches!(
        validate_expr_static(&both, &inputs, &outputs),
        Err(FuzzyError::SetNotFound { .. })
    ));
}

#[test]
fn validate_prefers_input_variable_of_a_name() {
    let inputs = vec![names("x", &["a"])];
    let outputs = vec![names("x", &["b"])];
    assert!(validate_expr_static(&is("x", "a"), &inputs, &outputs).is_ok());
    assert!(matches!(
        validate_expr_static(&is("x", "b"), &inputs, &outputs),
        Err(FuzzyError::SetNotFound { .. })
    ));
}

#[test]
fn expr_clone_is_equal_shape() {
    let e = FuzzyExpr::Or(Box::new(is("a", "x")), Box::new(is("b", "y")));
    let c = e.clone();
    assert!(expr_targets_var(&c, "a") && expr_targets_var(&c, "b"));
}

#[test]
fn fuzzy_proposition_new_keeps_names() {
    let p = FuzzyProposition::new("temperature", String::from("hot"));
    assert_eq!(p.variable, "temperature");
    assert_eq!(p.set, "hot");
    assert_ne!(InferenceMethod::Mamdani, InferenceMethod::Sugeno);
}
