use ipfrs_tensorlogic::epistemic_logic::{
    AgentId, EpistemicError, EpistemicFormula, EpistemicLogicReasoner, WorldId,
};

// ── Helpers ─────────────────────────────────────────────────────────────

fn make_atom(s: &str) -> EpistemicFormula {
    EpistemicFormula::Atom(s.to_string())
}

fn alice() -> AgentId {
    AgentId("alice".to_string())
}
fn bob() -> AgentId {
    AgentId("bob".to_string())
}

fn props(atoms: &[&str]) -> Vec<String> {
    atoms.iter().map(|s| s.to_string()).collect()
}

// ── Test 1: basic atom evaluation ────────────────────────────────────────

#[test]
fn test_atom_true() {
    let mut r = EpistemicLogicReasoner::new(50);
    let w0 = r.add_world(props(&["p"]));
    r.set_actual_world(w0).expect("test: should succeed");
    assert!(r
        .evaluate_actual(&make_atom("p"))
        .expect("test: should succeed"));
}

#[test]
fn test_atom_false() {
    let mut r = EpistemicLogicReasoner::new(50);
    let w0 = r.add_world(props(&[]));
    r.set_actual_world(w0).expect("test: should succeed");
    assert!(!r
        .evaluate_actual(&make_atom("q"))
        .expect("test: should succeed"));
}

// ── Test 3: negation ────────────────────────────────────────────────────

#[test]
fn test_not() {
    let mut r = EpistemicLogicReasoner::new(50);
    let w0 = r.add_world(props(&["p"]));
    r.set_actual_world(w0).expect("test: should succeed");
    let not_p = EpistemicFormula::Not(Box::new(make_atom("p")));
    assert!(!r.evaluate_actual(&not_p).expect("test: should succeed"));
    let not_q = EpistemicFormula::Not(Box::new(make_atom("q")));
    assert!(r.evaluate_actual(&not_q).expect("test: should succeed"));
}

// ── Test 4: conjunction ──────────────────────────────────────────────────

#[test]
fn test_and() {
    let mut r = EpistemicLogicReasoner::new(50);
    let w0 = r.add_world(props(&["p", "q"]));
    r.set_actual_world(w0).expect("test: should succeed");
    let p_and_q = EpistemicFormula::And(Box::new(make_atom("p")), Box::new(make_atom("q")));
    assert!(r.evaluate_actual(&p_and_q).expect("test: should succeed"));
    let p_and_r = EpistemicFormula::And(Box::new(make_atom("p")), Box::new(make_atom("r")));
    assert!(!r.evaluate_actual(&p_and_r).expect("test: should succeed"));
}

// ── Test 5: disjunction ──────────────────────────────────────────────────

#[test]
fn test_or() {
    let mut r = EpistemicLogicReasoner::new(50);
    let w0 = r.add_world(props(&["p"]));
    r.set_actual_world(w0).expect("test: should succeed");
    let p_or_q = EpistemicFormula::Or(Box::new(make_atom("p")), Box::new(make_atom("q")));
    assert!(r.evaluate_actual(&p_or_q).expect("test: should succeed"));
    let r_or_s = EpistemicFormula::Or(Box::new(make_atom("r")), Box::new(make_atom("s")));
    assert!(!r.evaluate_actual(&r_or_s).expect("test: should succeed"));
}

// ── Test 6: Knows — reflexive model ──────────────────────────────────────

#[test]
fn test_knows_reflexive() {
    let mut r = EpistemicLogicReasoner::new(50);
    let w0 = r.add_world(props(&["p"]));
    r.add_agent(alice());
    r.set_actual_world(w0).expect("test: should succeed");
    r.make_reflexive();
    let k_p = EpistemicFormula::Knows {
        agent: alice(),
        phi: Box::new(make_atom("p")),
    };
    // Alice only sees w0 (reflexive), p is true there.
    assert!(r.evaluate_actual(&k_p).expect("test: should succeed"));
}

// ── Test 7: Knows — agent doesn't know because of alternative world ──────

#[test]
fn test_knows_false_alternative_world() {
    let mut r = EpistemicLogicReasoner::new(50);
    let w0 = r.add_world(props(&["p"]));
    let w1 = r.add_world(props(&[]));
    r.add_agent(alice());
    r.set_actual_world(w0).expect("test: should succeed");
    r.add_accessibility(alice(), w0, w1)
        .expect("test: should succeed");
    r.make_reflexive();
    let k_p = EpistemicFormula::Knows {
        agent: alice(),
        phi: Box::new(make_atom("p")),
    };
    assert!(!r.evaluate_actual(&k_p).expect("test: should succeed"));
}

// ── Test 8: Possible operator ────────────────────────────────────────────

#[test]
fn test_possible() {
    let mut r = EpistemicLogicReasoner::new(50);
    let w0 = r.add_world(props(&[]));
    let w1 = r.add_world(props(&["p"]));
    r.add_agent(alice());
    r.set_actual_world(w0).expect("test: should succeed");
    r.add_accessibility(alice(), w0, w1)
        .expect("test: should succeed");
    r.make_reflexive();
    let m_p = EpistemicFormula::Possible {
        agent: alice(),
        phi: Box::new(make_atom("p")),
    };
    assert!(r.evaluate_actual(&m_p).expect("test: should succeed"));
}

// ── Test 9: EveryoneKnows ────────────────────────────────────────────────

#[test]
fn test_everyone_knows() {
    let mut r = EpistemicLogicReasoner::new(50);
    let w0 = r.add_world(props(&["p"]));
    r.add_agent(alice());
    r.add_agent(bob());
    r.set_actual_world(w0).expect("test: should succeed");
    r.make_reflexive();
    let e_p = EpistemicFormula::EveryoneKnows(Box::new(make_atom("p")));
    assert!(r.evaluate_actual(&e_p).expect("test: should succeed"));
}

// ── Test 10: EveryoneKnows fails if one agent doesn't know ───────────────

#[test]
fn test_everyone_knows_partial_failure() {
    let mut r = EpistemicLogicReasoner::new(50);
    let w0 = r.add_world(props(&["p"]));
    let w1 = r.add_world(props(&[]));
    r.add_agent(alice());
    r.add_agent(bob());
    r.set_actual_world(w0).expect("test: should succeed");
    // Alice can distinguish, Bob cannot
    r.add_accessibility(bob(), w0, w1)
        .expect("test: should succeed");
    r.make_reflexive();
    let e_p = EpistemicFormula::EveryoneKnows(Box::new(make_atom("p")));
    // Bob doesn't know p (sees w1 where p is false)
    assert!(!r.evaluate_actual(&e_p).expect("test: should succeed"));
}

// ── Test 11: CommonKnowledge — simple convergence ─────────────────────────

#[test]
fn test_common_knowledge_simple() {
    let mut r = EpistemicLogicReasoner::new(50);
    let w0 = r.add_world(props(&["p"]));
    r.add_agent(alice());
    r.add_agent(bob());
    r.set_actual_world(w0).expect("test: should succeed");
    r.make_reflexive();
    let c_p = EpistemicFormula::CommonKnowledge(Box::new(make_atom("p")));
    assert!(r.evaluate_actual(&c_p).expect("test: should succeed"));
}

// ── Test 12: CommonKnowledge false — one unreachable world breaks it ──────

#[test]
fn test_common_knowledge_false() {
    let mut r = EpistemicLogicReasoner::new(50);
    let w0 = r.add_world(props(&["p"]));
    let w1 = r.add_world(props(&[]));
    r.add_agent(alice());
    r.set_actual_world(w0).expect("test: should succeed");
    r.add_accessibility(alice(), w0, w1)
        .expect("test: should succeed");
    r.make_reflexive();
    // w1 is reachable but doesn't satisfy p
    let c_p = EpistemicFormula::CommonKnowledge(Box::new(make_atom("p")));
    assert!(!r.evaluate_actual(&c_p).expect("test: should succeed"));
}

// ── Test 13: knowledge_set ────────────────────────────────────────────────

#[test]
fn test_knowledge_set() {
    let mut r = EpistemicLogicReasoner::new(50);
    let w0 = r.add_world(props(&["p", "q"]));
    let w1 = r.add_world(props(&["p"]));
    r.add_agent(alice());
    r.set_actual_world(w0).expect("test: should succeed");
    r.add_accessibility(alice(), w0, w1)
        .expect("test: should succeed");
    r.make_reflexive();
    // Alice sees w0 and w1; p is in both, q only in w0
    let known = r.knowledge_set(&alice(), w0).expect("test: should succeed");
    assert!(known.contains(&"p".to_string()));
    assert!(!known.contains(&"q".to_string()));
}

// ── Test 14: add_world returns distinct ids ──────────────────────────────

#[test]
fn test_world_ids_distinct() {
    let mut r = EpistemicLogicReasoner::new(50);
    let w0 = r.add_world(props(&[]));
    let w1 = r.add_world(props(&[]));
    let w2 = r.add_world(props(&[]));
    assert_ne!(w0, w1);
    assert_ne!(w1, w2);
}

// ── Test 15: set_actual_world error ──────────────────────────────────────

#[test]
fn test_set_actual_world_error() {
    let mut r = EpistemicLogicReasoner::new(50);
    let err = r.set_actual_world(WorldId(999)).unwrap_err();
    assert_eq!(err, EpistemicError::WorldNotFound(999));
}

// ── Test 16: add_accessibility error — world not found ───────────────────

#[test]
fn test_add_accessibility_error_from() {
    let mut r = EpistemicLogicReasoner::new(50);
    r.add_agent(alice());
    let err = r
        .add_accessibility(alice(), WorldId(0), WorldId(1))
        .unwrap_err();
    assert_eq!(err, EpistemicError::WorldNotFound(0));
}

#[test]
fn test_add_accessibility_error_to() {
    let mut r = EpistemicLogicReasoner::new(50);
    let w0 = r.add_world(props(&[]));
    r.add_agent(alice());
    let err = r.add_accessibility(alice(), w0, WorldId(999)).unwrap_err();
    assert_eq!(err, EpistemicError::WorldNotFound(999));
}

// ── Test 18: EmptyModel error ────────────────────────────────────────────

#[test]
fn test_empty_model_error() {
    let r = EpistemicLogicReasoner::new(50);
    let err = r.evaluate_actual(&make_atom("p")).unwrap_err();
    assert_eq!(err, EpistemicError::EmptyModel);
}

// ── Test 19: make_reflexive idempotent ───────────────────────────────────

#[test]
fn test_make_reflexive_idempotent() {
    let mut r = EpistemicLogicReasoner::new(50);
    r.add_world(props(&["p"]));
    r.add_agent(alice());
    r.make_reflexive();
    let count1 = r.model.relations.len();
    r.make_reflexive();
    let count2 = r.model.relations.len();
    assert_eq!(count1, count2);
}

// ── Test 20: make_transitive ─────────────────────────────────────────────

#[test]
fn test_make_transitive() {
    let mut r = EpistemicLogicReasoner::new(50);
    let w0 = r.add_world(props(&[]));
    let w1 = r.add_world(props(&[]));
    let w2 = r.add_world(props(&[]));
    r.add_agent(alice());
    r.add_accessibility(alice(), w0, w1)
        .expect("test: should succeed");
    r.add_accessibility(alice(), w1, w2)
        .expect("test: should succeed");
    r.make_transitive();
    // Should now have w0 → w2
    let accessible = r.model.worlds_accessible_from(&alice(), w0);
    assert!(accessible.contains(&w2));
}

// ── Test 21: is_valid ────────────────────────────────────────────────────

#[test]
fn test_is_valid_tautology() {
    let mut r = EpistemicLogicReasoner::new(50);
    r.add_world(props(&["p"]));
    r.add_world(props(&["p"]));
    // p∨¬p is always true
    let taut = EpistemicFormula::Or(
        Box::new(make_atom("p")),
        Box::new(EpistemicFormula::Not(Box::new(make_atom("p")))),
    );
    assert!(r.is_valid(&taut).expect("test: should succeed"));
}

#[test]
fn test_is_valid_false() {
    let mut r = EpistemicLogicReasoner::new(50);
    r.add_world(props(&["p"]));
    r.add_world(props(&[])); // p is false here
    assert!(!r.is_valid(&make_atom("p")).expect("test: should succeed"));
}

// ── Test 23: is_satisfiable ──────────────────────────────────────────────

#[test]
fn test_is_satisfiable_true() {
    let mut r = EpistemicLogicReasoner::new(50);
    r.add_world(props(&["p"]));
    r.add_world(props(&[]));
    assert!(r
        .is_satisfiable(&make_atom("p"))
        .expect("test: should succeed"));
}

#[test]
fn test_is_satisfiable_false() {
    let mut r = EpistemicLogicReasoner::new(50);
    r.add_world(props(&[]));
    assert!(!r
        .is_satisfiable(&make_atom("p"))
        .expect("test: should succeed"));
}

// ── Test 25: satisfying_worlds ───────────────────────────────────────────

#[test]
fn test_satisfying_worlds() {
    let mut r = EpistemicLogicReasoner::new(50);
    let w0 = r.add_world(props(&["p"]));
    let w1 = r.add_world(props(&[]));
    let worlds = r
        .satisfying_worlds(&make_atom("p"))
        .expect("test: should succeed");
    assert!(worlds.contains(&w0));
    assert!(!worlds.contains(&w1));
}

// ── Test 26: stats ───────────────────────────────────────────────────────

#[test]
fn test_stats() {
    let mut r = EpistemicLogicReasoner::new(50);
    let w0 = r.add_world(props(&[]));
    let w1 = r.add_world(props(&[]));
    r.add_agent(alice());
    r.add_accessibility(alice(), w0, w1)
        .expect("test: should succeed");
    r.set_actual_world(w0).expect("test: should succeed");
    let s = r.stats();
    assert_eq!(s.world_count, 2);
    assert_eq!(s.agent_count, 1);
    assert_eq!(s.relation_count, 1);
    assert_eq!(s.actual_world, w0.0);
}

// ── Test 27: duplicate agent not duplicated ───────────────────────────────

#[test]
fn test_duplicate_agent_ignored() {
    let mut r = EpistemicLogicReasoner::new(50);
    r.add_agent(alice());
    r.add_agent(alice());
    assert_eq!(r.agents.len(), 1);
}

// ── Test 28: knowledge_set agent not found ────────────────────────────────

#[test]
fn test_knowledge_set_agent_not_found() {
    let mut r = EpistemicLogicReasoner::new(50);
    let w0 = r.add_world(props(&["p"]));
    let err = r.knowledge_set(&alice(), w0).unwrap_err();
    assert_eq!(err, EpistemicError::AgentNotFound("alice".to_string()));
}

// ── Test 29: knowledge_set world not found ───────────────────────────────

#[test]
fn test_knowledge_set_world_not_found() {
    let mut r = EpistemicLogicReasoner::new(50);
    r.add_agent(alice());
    let err = r.knowledge_set(&alice(), WorldId(42)).unwrap_err();
    assert_eq!(err, EpistemicError::WorldNotFound(42));
}

// ── Test 30: T-axiom check ────────────────────────────────────────────────

#[test]
fn test_t_axiom_reflexive() {
    let mut r = EpistemicLogicReasoner::new(50);
    r.add_world(props(&[]));
    r.add_world(props(&[]));
    r.add_agent(alice());
    r.make_reflexive();
    assert!(r.satisfies_t_axiom(&alice()));
}

#[test]
fn test_t_axiom_not_reflexive() {
    let mut r = EpistemicLogicReasoner::new(50);
    let w0 = r.add_world(props(&[]));
    let w1 = r.add_world(props(&[]));
    r.add_agent(alice());
    r.add_accessibility(alice(), w0, w1)
        .expect("test: should succeed");
    // No reflexive closure
    assert!(!r.satisfies_t_axiom(&alice()));
}

// ── Test 32: 4-axiom (transitivity) check ────────────────────────────────

#[test]
fn test_4_axiom_transitive() {
    let mut r = EpistemicLogicReasoner::new(50);
    let w0 = r.add_world(props(&[]));
    let w1 = r.add_world(props(&[]));
    let w2 = r.add_world(props(&[]));
    r.add_agent(alice());
    r.add_accessibility(alice(), w0, w1)
        .expect("test: should succeed");
    r.add_accessibility(alice(), w1, w2)
        .expect("test: should succeed");
    r.make_transitive();
    assert!(r.satisfies_4_axiom(&alice()));
}

#[test]
fn test_4_axiom_not_transitive() {
    let mut r = EpistemicLogicReasoner::new(50);
    let w0 = r.add_world(props(&[]));
    let w1 = r.add_world(props(&[]));
    let w2 = r.add_world(props(&[]));
    r.add_agent(alice());
    r.add_accessibility(alice(), w0, w1)
        .expect("test: should succeed");
    r.add_accessibility(alice(), w1, w2)
        .expect("test: should succeed");
    // No transitive closure -> fails 4
    assert!(!r.satisfies_4_axiom(&alice()));
}

// ── Test 34: B-axiom (symmetry) check ────────────────────────────────────

#[test]
fn test_b_axiom_symmetric() {
    let mut r = EpistemicLogicReasoner::new(50);
    let w0 = r.add_world(props(&[]));
    let w1 = r.add_world(props(&[]));
    r.add_agent(alice());
    r.add_accessibility(alice(), w0, w1)
        .expect("test: should succeed");
    r.add_accessibility(alice(), w1, w0)
        .expect("test: should succeed");
    assert!(r.satisfies_b_axiom(&alice()));
}

#[test]
fn test_b_axiom_not_symmetric() {
    let mut r = EpistemicLogicReasoner::new(50);
    let w0 = r.add_world(props(&[]));
    let w1 = r.add_world(props(&[]));
    r.add_agent(alice());
    r.add_accessibility(alice(), w0, w1)
        .expect("test: should succeed");
    // Missing w1 → w0
    assert!(!r.satisfies_b_axiom(&alice()));
}

// ── Test 36: 5-axiom (Euclidean) check ───────────────────────────────────

#[test]
fn test_5_axiom_euclidean() {
    let mut r = EpistemicLogicReasoner::new(50);
    let w0 = r.add_world(props(&[]));
    let w1 = r.add_world(props(&[]));
    let w2 = r.add_world(props(&[]));
    r.add_agent(alice());
    // u→v and u→w => v→w
    r.add_accessibility(alice(), w0, w1)
        .expect("test: should succeed");
    r.add_accessibility(alice(), w0, w2)
        .expect("test: should succeed");
    r.add_accessibility(alice(), w1, w1)
        .expect("test: should succeed");
    r.add_accessibility(alice(), w1, w2)
        .expect("test: should succeed");
    r.add_accessibility(alice(), w2, w1)
        .expect("test: should succeed");
    r.add_accessibility(alice(), w2, w2)
        .expect("test: should succeed");
    assert!(r.satisfies_5_axiom(&alice()));
}

// ── Test 37: common_knowledge_worlds ─────────────────────────────────────

#[test]
fn test_common_knowledge_worlds() {
    let mut r = EpistemicLogicReasoner::new(50);
    let w0 = r.add_world(props(&["p"]));
    let w1 = r.add_world(props(&["p"]));
    let w2 = r.add_world(props(&[]));
    r.add_agent(alice());
    r.add_agent(bob());
    r.set_actual_world(w0).expect("test: should succeed");
    // Alice and Bob both see w0 and w1 but not w2
    r.add_accessibility(alice(), w0, w1)
        .expect("test: should succeed");
    r.add_accessibility(bob(), w0, w1)
        .expect("test: should succeed");
    r.make_reflexive();
    let ck_worlds = r
        .common_knowledge_worlds(&make_atom("p"))
        .expect("test: should succeed");
    assert!(ck_worlds.contains(&w0));
    assert!(ck_worlds.contains(&w1));
    assert!(!ck_worlds.contains(&w2));
}

// ── Test 38: nested formula (K(K(p))) ────────────────────────────────────

#[test]
fn test_nested_knows() {
    let mut r = EpistemicLogicReasoner::new(50);
    let w0 = r.add_world(props(&["p"]));
    r.add_agent(alice());
    r.set_actual_world(w0).expect("test: should succeed");
    r.make_reflexive();
    // Alice knows that Alice knows p (S4/S5)
    let k_k_p = EpistemicFormula::Knows {
        agent: alice(),
        phi: Box::new(EpistemicFormula::Knows {
            agent: alice(),
            phi: Box::new(make_atom("p")),
        }),
    };
    assert!(r.evaluate_actual(&k_k_p).expect("test: should succeed"));
}

// ── Test 39: epistemic_partition ─────────────────────────────────────────

#[test]
fn test_epistemic_partition() {
    let mut r = EpistemicLogicReasoner::new(50);
    let w0 = r.add_world(props(&[]));
    let w1 = r.add_world(props(&[]));
    r.add_agent(alice());
    r.add_accessibility(alice(), w0, w1)
        .expect("test: should succeed");
    r.set_actual_world(w0).expect("test: should succeed");
    let partition = r.epistemic_partition(w0).expect("test: should succeed");
    let alice_reachable = partition.get(&alice()).expect("test: should succeed");
    assert!(alice_reachable.contains(&w1));
}

// ── Test 40: evaluate — unknown world gives error ─────────────────────────

#[test]
fn test_evaluate_unknown_world_error() {
    let mut r = EpistemicLogicReasoner::new(50);
    r.add_world(props(&[]));
    let err = r.evaluate(&make_atom("p"), WorldId(999)).unwrap_err();
    assert_eq!(err, EpistemicError::WorldNotFound(999));
}

// ── Test 41: multi-agent scenario — muddy children puzzle sketch ──────────
//
// World layout:
//   w_tt: alice_muddy ∧ bob_muddy   (both muddy)
//   w_tf: alice_muddy               (only alice muddy)
//   w_ft: bob_muddy                 (only bob muddy)
//   w_ff: (neither muddy)
//
// Accessibility (standard muddy-children — agent can't see own forehead):
//   alice: w_tt ↔ w_ft  (she sees bob muddy in both, can't tell if she is muddy)
//          w_tf ↔ w_ff
//   bob:   w_tt ↔ w_tf  (he sees alice muddy in both, can't tell if he is muddy)
//          w_ft ↔ w_ff
//
// In w_tt (actual world):
//   Alice sees {w_tt, w_ft}: alice_muddy is true in w_tt but false in w_ft  => doesn't know
//   Bob   sees {w_tt, w_tf}: bob_muddy   is true in w_tt but false in w_tf  => doesn't know

#[test]
fn test_muddy_children_two_agents() {
    let mut r = EpistemicLogicReasoner::new(100);
    let w_tt = r.add_world(props(&["alice_muddy", "bob_muddy"]));
    let w_tf = r.add_world(props(&["alice_muddy"])); // only alice muddy
    let w_ft = r.add_world(props(&["bob_muddy"])); // only bob muddy
    let _w_ff = r.add_world(props(&[]));
    r.add_agent(alice());
    r.add_agent(bob());
    r.set_actual_world(w_tt).expect("test: should succeed");

    // Alice confuses tt↔ft (she sees bob muddy in both, can't see her own forehead)
    r.add_accessibility(alice(), w_tt, w_ft)
        .expect("test: should succeed");
    r.add_accessibility(alice(), w_ft, w_tt)
        .expect("test: should succeed");
    // Bob confuses tt↔tf (he sees alice muddy in both, can't see his own forehead)
    r.add_accessibility(bob(), w_tt, w_tf)
        .expect("test: should succeed");
    r.add_accessibility(bob(), w_tf, w_tt)
        .expect("test: should succeed");
    r.make_reflexive();

    // Alice sees {w_tt, w_ft}: alice_muddy is true in w_tt but FALSE in w_ft => doesn't know
    let alice_knows_muddy = EpistemicFormula::Knows {
        agent: alice(),
        phi: Box::new(make_atom("alice_muddy")),
    };
    assert!(!r
        .evaluate_actual(&alice_knows_muddy)
        .expect("test: should succeed"));

    // Bob sees {w_tt, w_tf}: bob_muddy is true in w_tt but FALSE in w_tf => doesn't know
    let bob_knows_muddy = EpistemicFormula::Knows {
        agent: bob(),
        phi: Box::new(make_atom("bob_muddy")),
    };
    assert!(!r
        .evaluate_actual(&bob_knows_muddy)
        .expect("test: should succeed"));

    // Alice does KNOW that bob is muddy at w_tt (w_tt has bob_muddy; w_ft has bob_muddy)
    let alice_knows_bob_muddy = EpistemicFormula::Knows {
        agent: alice(),
        phi: Box::new(make_atom("bob_muddy")),
    };
    assert!(r
        .evaluate_actual(&alice_knows_bob_muddy)
        .expect("test: should succeed"));

    // At least one is muddy — true at actual world
    let at_least_one = EpistemicFormula::Or(
        Box::new(make_atom("alice_muddy")),
        Box::new(make_atom("bob_muddy")),
    );
    assert!(r
        .evaluate_actual(&at_least_one)
        .expect("test: should succeed"));
}

#[test]
fn make_reflexive_adds_only_missing_self_loops() {
    let mut r = EpistemicLogicReasoner::new(50);
    let w0 = r.add_world(props(&["p"]));
    r.add_world(props(&[]));
    r.add_world(props(&["p"]));
    r.add_agent(alice());
    r.add_agent(bob());
    r.add_accessibility(alice(), w0, w0).expect("test: should succeed");
    r.make_reflexive();
    assert_eq!(r.stats().relation_count, 6);
    assert!(r.satisfies_t_axiom(&alice()));
    assert!(r.satisfies_t_axiom(&bob()));
}

#[test]
fn satisfiable_matches_satisfying_worlds() {
    let mut r = EpistemicLogicReasoner::new(50);
    r.add_world(props(&[]));
    let w1 = r.add_world(props(&["p"]));
    r.add_world(props(&[]));
    let ws = r.satisfying_worlds(&make_atom("p")).expect("test: should succeed");
    assert_eq!(ws, vec![w1]);
    assert_eq!(r.is_satisfiable(&make_atom("p")), Ok(true));
    assert_eq!(r.is_valid(&make_atom("p")), Ok(false));
    assert!(r.satisfying_worlds(&make_atom("q")).expect("test: should succeed").is_empty());
    assert_eq!(r.is_satisfiable(&make_atom("q")), Ok(false));
}
