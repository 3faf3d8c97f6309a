use tessera::kicad::dru::{Constraint, Rule};
use tessera::kicad::dru_eval::{eval, eval_predicate, glob_match, resolve_constraint, Case, EndpointFacts, ItemFacts};
use tessera::kicad::dru_expr::{Expr, Predicate};

fn predicate(subject: &str, predicate: Predicate) -> Expr {
    Expr::Predicate {
        subject: subject.to_string(),
        predicate,
    }
}

#[test]
fn glob_match_handles_prefix_suffix_and_exact() {
    assert!(glob_match("IC14-*", "IC14-3", Case::Sensitive));
    assert!(glob_match("*-3", "IC14-3", Case::Sensitive));
    assert!(glob_match("IC14", "IC14", Case::Sensitive));
    assert!(!glob_match("IC14", "IC14-3", Case::Sensitive));
    assert!(!glob_match("IC1", "IC14-3", Case::Sensitive));
}

#[test]
fn glob_match_handles_multiple_wildcards() {
    assert!(glob_match("A*B*C", "AxxBxxC", Case::Sensitive));
    assert!(glob_match("A*B*C", "ABC", Case::Sensitive));
    assert!(!glob_match("A*B*C", "ACB", Case::Sensitive));
}

#[test]
fn glob_match_case_sensitivity() {
    assert!(glob_match("shield*", "shieldzone", Case::Sensitive));
    assert!(!glob_match("shield*", "ShieldZone", Case::Sensitive));
    assert!(glob_match("shield*", "ShieldZone", Case::Insensitive));
}

#[test]
fn glob_match_star_matches_empty_text() {
    assert!(glob_match("*", "", Case::Sensitive));
    assert!(!glob_match("?", "", Case::Sensitive));
    assert!(glob_match("", "", Case::Sensitive));
}

#[test]
fn net_class_eq_and_neq() {
    let facts = ItemFacts {
        net_class: Some("Power"),
        ..Default::default()
    };
    assert!(eval_predicate(&Predicate::NetClassEq("Power".to_string()), &facts));
    assert!(!eval_predicate(&Predicate::NetClassEq("Signal".to_string()), &facts));
    assert!(eval_predicate(&Predicate::NetClassNeq("Signal".to_string()), &facts));
    assert!(!eval_predicate(&Predicate::NetClassNeq("Power".to_string()), &facts));
}

#[test]
fn in_diff_pair_requires_a_real_partner_net_not_just_suffix_shaped_name() {
    let with_partner = ItemFacts {
        net_name: Some("SIG_P"),
        diff_pair_partner_net_name: Some("SIG_N"),
        ..Default::default()
    };
    assert!(eval_predicate(&Predicate::InDiffPair("SIG".to_string()), &with_partner));
    assert!(eval_predicate(&Predicate::InDiffPair("*".to_string()), &with_partner));
    assert!(!eval_predicate(&Predicate::InDiffPair("OTHER".to_string()), &with_partner));
    let no_partner = ItemFacts {
        net_name: Some("SIG_P"),
        diff_pair_partner_net_name: None,
        ..Default::default()
    };
    assert!(!eval_predicate(&Predicate::InDiffPair("*".to_string()), &no_partner));
}

#[test]
fn in_diff_pair_base_name_is_case_sensitive() {
    let facts = ItemFacts {
        net_name: Some("SIG_P"),
        diff_pair_partner_net_name: Some("SIG_N"),
        ..Default::default()
    };
    assert!(!eval_predicate(&Predicate::InDiffPair("sig".to_string()), &facts));
}

#[test]
fn intersects_area_and_inside_area_both_match_the_same_area_list() {
    let facts = ItemFacts {
        areas: &["ShieldZoneA"],
        ..Default::default()
    };
    assert!(eval_predicate(&Predicate::IntersectsArea("Shield*".to_string()), &facts));
    assert!(eval_predicate(&Predicate::InsideArea("Shield*".to_string()), &facts));
    assert!(!eval_predicate(&Predicate::IntersectsArea("shield*".to_string()), &facts));
}

#[test]
fn from_to_matches_symmetrically_and_case_insensitively() {
    let facts = ItemFacts {
        connection_endpoints: Some([
            EndpointFacts {
                reference: Some("IC14"),
                number: Some("3"),
            },
            EndpointFacts {
                reference: Some("IC13"),
                number: Some("7"),
            },
        ]),
        ..Default::default()
    };
    assert!(eval_predicate(
        &Predicate::FromTo("ic14-*".to_string(), "IC13-*".to_string()),
        &facts
    ));
    assert!(eval_predicate(
        &Predicate::FromTo("IC13-*".to_string(), "IC14-*".to_string()),
        &facts
    ));
    assert!(eval_predicate(
        &Predicate::FromTo("IC14".to_string(), "IC13".to_string()),
        &facts
    ));
    assert!(!eval_predicate(
        &Predicate::FromTo("IC14-99".to_string(), "IC13-*".to_string()),
        &facts
    ));
}

#[test]
fn from_to_with_no_known_endpoints_never_matches() {
    let facts = ItemFacts::default();
    assert!(!eval_predicate(
        &Predicate::FromTo("*".to_string(), "*".to_string()),
        &facts
    ));
}

#[test]
fn eval_handles_not_and_and_or() {
    let facts = ItemFacts {
        net_class: Some("HV"),
        areas: &[],
        ..Default::default()
    };
    let expr = Expr::And(
        Box::new(predicate("A", Predicate::NetClassEq("HV".to_string()))),
        Box::new(Expr::Not(Box::new(predicate(
            "A",
            Predicate::InsideArea("Shield*".to_string()),
        )))),
    );
    assert!(eval(&expr, &facts));
    let shielded = ItemFacts {
        net_class: Some("HV"),
        areas: &["ShieldZone"],
        ..Default::default()
    };
    assert!(!eval(&expr, &shielded));
    let either = Expr::Or(
        Box::new(predicate("A", Predicate::NetClassEq("LV".to_string()))),
        Box::new(predicate("A", Predicate::InsideArea("Shield*".to_string()))),
    );
    assert!(eval(&either, &shielded));
    assert!(!eval(&either, &facts));
}

fn width_rule(name: &str, min_nm: i64, condition: Option<&str>) -> Rule {
    Rule {
        name: name.to_string(),
        layer: Vec::new(),
        constraints: vec![Constraint {
            kind: "track_width".to_string(),
            min_nm: Some(min_nm),
            max_nm: None,
            opt_nm: None,
            args: Vec::new(),
        }],
        condition: condition.map(|c| c.to_string()),
    }
}

#[test]
fn resolve_constraint_picks_the_last_matching_rule() {
    let rules = vec![
        width_rule("first", 100_000, Some("A.NetClass == 'X'")),
        width_rule("second", 200_000, Some("A.NetClass == 'X'")),
    ];
    let facts = ItemFacts {
        net_class: Some("X"),
        ..Default::default()
    };
    let (rule, constraint) = resolve_constraint(&rules, &facts, "track_width").unwrap();
    assert_eq!(rule.name, "second", "second (last) rule should win");
    assert_eq!(constraint.min_nm, Some(200_000));
}

#[test]
fn resolve_constraint_skips_rules_whose_condition_does_not_match() {
    let rules = vec![width_rule("only", 100_000, Some("A.NetClass == 'Y'"))];
    let facts = ItemFacts {
        net_class: Some("X"),
        ..Default::default()
    };
    assert!(resolve_constraint(&rules, &facts, "track_width").is_none());
}

#[test]
fn resolve_constraint_treats_a_ruleless_condition_as_unconditional() {
    let rules = vec![Rule {
        name: "always".to_string(),
        layer: Vec::new(),
        constraints: vec![Constraint {
            kind: "clearance".to_string(),
            min_nm: Some(100_000),
            max_nm: None,
            opt_nm: None,
            args: Vec::new(),
        }],
        condition: None,
    }];
    let facts = ItemFacts::default();
    assert!(resolve_constraint(&rules, &facts, "clearance").is_some());
}

#[test]
fn resolve_constraint_skips_an_unparseable_condition() {
    let rules = vec![
        width_rule("good", 100_000, None),
        width_rule("broken", 300_000, Some("A.NetClass ==")),
    ];
    let facts = ItemFacts::default();
    let (rule, _) = resolve_constraint(&rules, &facts, "track_width").unwrap();
    assert_eq!(rule.name, "good");
}
