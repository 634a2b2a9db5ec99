use ipfrs_tensorlogic::fuzzy_logic::{check_rule_references, FuzzyError, FuzzyProposition};
use ipfrs_tensorlogic::fuzzy_logic_engine::VarNames;

fn var_names(name: &str, sets: &[&str]) -> VarNames {
    VarNames { name: name.to_string(), sets: sets.iter().map(|s| s.to_string()).collect() }
}

fn registry() -> Vec<VarNames> {
    vec![var_names("temperature", &["cold", "hot"]), var_names("fan", &["slow", "fast"])]
}

#[test]
fn rule_with_known_names_is_accepted() {
    let ants = vec![FuzzyProposition::new("temperature", "hot")];
    let cons = FuzzyProposition::new("fan", "fast");
    assert!(check_rule_references(&ants, &cons, &registry()).is_ok());
}

#[test]
fn rule_with_unknown_antecedent_variable_is_refused() {
    let ants = vec![FuzzyProposition::new("pressure", "high")];
    let cons = FuzzyProposition::new("fan", "fast");
    match check_rule_references(&ants, &cons, &registry()) {
        Err(FuzzyError::VariableNotFound(v)) => assert_eq!(v, "pressure"),
        other => panic!("unexpected {:?}", other),
    }
}

#[test]
fn rule_with_unknown_consequent_set_is_refused() {
    let ants = vec![FuzzyProposition::new("temperature", "cold")];
    let cons = FuzzyProposition::new("fan", "medium");
    match check_rule_references(&ants, &cons, &registry()) {
        Err(FuzzyError::SetNotFound { variable, set }) => {
            assert_eq!(variable, "fan");
            assert_eq!(set, "medium");
        }
        other => panic!("unexpected {:?}", other),
    }
}

#[test]
fn first_faulty_antecedent_is_reported_before_consequent() {
    let ants = vec![
        FuzzyProposition::new("temperature", "hot"),
        FuzzyProposition::new("temperature", "warm"),
        FuzzyProposition::new("humidity", "high"),
    ];
    let cons = FuzzyProposition::new("speed", "fast");
    match check_rule_references(&ants, &cons, &registry()) {
        Err(FuzzyError::SetNotFound { variable, set }) => {
            assert_eq!(variable, "temperature");
            assert_eq!(set, "warm");
        }
        other => panic!("unexpected {:?}", other),
    }
}

#[test]
fn rule_without_antecedents_checks_consequent_only() {
    let cons = FuzzyProposition::new("speed", "fast");
    match check_rule_references(&Vec::new(), &cons, &registry()) {
        Err(FuzzyError::VariableNotFound(v)) => assert_eq!(v, "speed"),
        other => panic!("unexpected {:?}", other),
    }
}
