use tessera::kicad::dru_expr::{parse_condition, Expr, ParseExprError, Predicate};

fn predicate(subject: &str, predicate: Predicate) -> Expr {
    Expr::Predicate {
        subject: subject.to_string(),
        predicate,
    }
}

#[test]
fn parses_a_single_or_of_two_intersects_area_calls() {
    let expr = parse_condition("A.intersectsArea('underFPGA') || A.intersectsArea('underDDR')").unwrap();
    assert_eq!(
        expr,
        Expr::Or(
            Box::new(predicate("A", Predicate::IntersectsArea("underFPGA".to_string()))),
            Box::new(predicate("A", Predicate::IntersectsArea("underDDR".to_string()))),
        )
    );
}

#[test]
fn parses_in_diff_pair_wildcard() {
    let expr = parse_condition("A.inDiffPair('*')").unwrap();
    assert_eq!(expr, predicate("A", Predicate::InDiffPair("*".to_string())));
}

#[test]
fn parses_net_class_equality_with_trailing_whitespace() {
    let expr = parse_condition("A.NetClass == 'zse_50r' ").unwrap();
    assert_eq!(expr, predicate("A", Predicate::NetClassEq("zse_50r".to_string())));
}

#[test]
fn parses_net_class_and_from_to_with_spacing_variations() {
    let expr = parse_condition("A.NetClass == 'DDR4_CMD' && A.fromTo('IC14-*','IC13-*' )").unwrap();
    assert_eq!(
        expr,
        Expr::And(
            Box::new(predicate("A", Predicate::NetClassEq("DDR4_CMD".to_string()))),
            Box::new(predicate(
                "A",
                Predicate::FromTo("IC14-*".to_string(), "IC13-*".to_string())
            )),
        )
    );
}

#[test]
fn parses_every_real_condition_string_in_the_vme_wren_demo_file() {
    let conditions = [
        "A.intersectsArea('underFPGA') || A.intersectsArea('underDDR')",
        "A.inDiffPair('*')",
        "A.NetClass == 'zse_50r' ",
        "A.NetClass == 'DDR4_CMD' && A.fromTo('IC14-*','IC13-*' )",
        "A.NetClass == 'DDR4_CMD' && A.fromTo('IC13-*','IC5-*')",
        "A.NetClass == 'DDR4_BYTE0' && A.fromTo('IC14-*','IC13-*' )",
        "A.NetClass == 'DDR4_BYTE1' && A.fromTo('IC14-*','IC13-*' )",
        "A.NetClass == 'DDR4_BYTE2' && A.fromTo('IC14-*','IC5-*' )",
        "A.NetClass == 'DDR4_BYTE3' && A.fromTo('IC14-*','IC5-*' )",
    ];
    for condition in conditions {
        parse_condition(condition).unwrap_or_else(|e| panic!("failed to parse {condition:?}: {e:?}"));
    }
}

#[test]
fn accepts_insidearea_even_though_unobserved_in_the_demo_file() {
    let expr = parse_condition("A.insideArea('BuckStage')").unwrap();
    assert_eq!(expr, predicate("A", Predicate::InsideArea("BuckStage".to_string())));
}

#[test]
fn accepts_subject_b_syntactically() {
    let expr = parse_condition("B.NetClass == 'GND'").unwrap();
    assert_eq!(expr, predicate("B", Predicate::NetClassEq("GND".to_string())));
}

#[test]
fn rejects_an_unknown_predicate_name() {
    let err = parse_condition("A.someNewThing('x')").unwrap_err();
    assert_eq!(err, ParseExprError::UnknownPredicate("someNewThing".to_string()));
}

#[test]
fn rejects_from_to_called_with_one_argument() {
    let err = parse_condition("A.fromTo('IC14-*')").unwrap_err();
    assert_eq!(err, ParseExprError::WrongArity("fromTo".to_string(), 2, 1));
}

#[test]
fn rejects_from_to_called_with_three_arguments() {
    let err = parse_condition("A.fromTo('a','b','c')").unwrap_err();
    assert_eq!(err, ParseExprError::WrongArity("fromTo".to_string(), 2, 3));
}

#[test]
fn rejects_dangling_and() {
    assert!(parse_condition("A.inDiffPair('*') &&").is_err());
}

#[test]
fn rejects_trailing_content_after_a_complete_expression() {
    let err = parse_condition("A.inDiffPair('*') A.inDiffPair('*')").unwrap_err();
    assert!(matches!(err, ParseExprError::TrailingContent(_)));
}

#[test]
fn rejects_net_class_missing_equality_operator() {
    assert!(parse_condition("A.NetClass 'x'").is_err());
}

#[test]
fn rejects_unterminated_string_literal() {
    assert!(parse_condition("A.NetClass == 'x").is_err());
}

#[test]
fn negation_and_inequality_parse() {
    let expr = parse_condition("!A.insideArea('Z') && A.NetClass != 'Power'").unwrap();
    assert_eq!(
        expr,
        Expr::And(
            Box::new(Expr::Not(Box::new(predicate(
                "A",
                Predicate::InsideArea("Z".to_string())
            )))),
            Box::new(predicate("A", Predicate::NetClassNeq("Power".to_string()))),
        )
    );
}

#[test]
fn and_binds_tighter_than_or() {
    let expr = parse_condition("A.inDiffPair('a') || A.inDiffPair('b') && A.inDiffPair('c')").unwrap();
    assert_eq!(
        expr,
        Expr::Or(
            Box::new(predicate("A", Predicate::InDiffPair("a".to_string()))),
            Box::new(Expr::And(
                Box::new(predicate("A", Predicate::InDiffPair("b".to_string()))),
                Box::new(predicate("A", Predicate::InDiffPair("c".to_string()))),
            )),
        )
    );
}

#[test]
fn empty_condition_is_an_unexpected_end() {
    assert_eq!(parse_condition("   ").unwrap_err(), ParseExprError::UnexpectedEnd);
}
