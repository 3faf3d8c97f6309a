use tessera::kicad::dru::parse_design_rules;
use tessera::kicad::sexpr::{parse, parse_all};

#[test]
fn parses_flat_list() {
    let expr = parse("(net 1 \"GND\")").unwrap();
    assert_eq!(expr.head(), Some("net"));
    assert_eq!(expr.atom(1), Some("1"));
    assert_eq!(expr.atom(2), Some("GND"));
}

#[test]
fn parses_nested_lists() {
    let expr = parse("(kicad_pcb (layers (0 \"F.Cu\" signal)))").unwrap();
    let layers_list = expr.find("layers").unwrap();
    let first_entry = &layers_list.as_list().unwrap()[1];
    assert_eq!(first_entry.atom(0), Some("0"));
    assert_eq!(first_entry.atom(1), Some("F.Cu"));
    assert_eq!(first_entry.atom(2), Some("signal"));
}

#[test]
fn find_all_returns_every_match_in_order() {
    let expr = parse("(board (net 0 \"\") (net 1 \"A\") (net 2 \"B\"))").unwrap();
    let names: Vec<&str> = expr
        .find_all("net")
        .iter()
        .map(|n| n.atom(2).unwrap_or(""))
        .collect();
    assert_eq!(names, vec!["", "A", "B"]);
}

#[test]
fn handles_empty_quoted_string() {
    let expr = parse("(net 0 \"\")").unwrap();
    assert_eq!(expr.atom(2), Some(""));
}

#[test]
fn handles_escaped_quote_in_string() {
    let expr = parse("(descr \"a \\\"quoted\\\" word\")").unwrap();
    assert_eq!(expr.atom(1), Some("a \"quoted\" word"));
}

#[test]
fn rejects_trailing_content() {
    assert!(parse("(a) (b)").is_err());
}

#[test]
fn rejects_unterminated_list() {
    assert!(parse("(a (b)").is_err());
}

#[test]
fn trailing_whitespace_is_tolerated() {
    let expr = parse("  (a b)\n\t ").unwrap();
    assert_eq!(expr.head(), Some("a"));
    assert!(expr.find("missing").is_none());
}

#[test]
fn parse_all_reads_a_sequence_of_forms() {
    let forms = parse_all("(version 1)\n(rule \"x\")").unwrap();
    assert_eq!(forms.len(), 2);
    assert_eq!(forms[0].head(), Some("version"));
    assert_eq!(forms[1].atom(1), Some("x"));
    assert!(parse_all("(version 1").is_err());
}

const VME_WREN_DRU: &str = r#"
(version 1)

(rule "clearance_under_fpga"
	(constraint clearance (min 0.1mm) )
	(constraint hole_size (min 0.2mm) )
	(constraint via_diameter (min 0.4mm) )
	(condition "A.intersectsArea('underFPGA') || A.intersectsArea('underDDR')" )
)


(rule "zdiff_100R_outer"
	(layer outer)
	(constraint track_width (min 0.115mm) (max 0.115mm) (opt 0.115mm) )
	(constraint diff_pair_gap (min 0.1mm) ( max 1mm) (opt 0.1mm) )
	(constraint diff_pair_uncoupled (max 5mm) )
	(condition "A.inDiffPair('*')" )
)

(rule "zse_50R_outer"
	(layer outer)
	(constraint track_width (min 0.1mm) (max 1mm) (opt 0.2mm) )
	(condition "A.NetClass == 'zse_50r' " )
)

(rule "length_DDR_CMD_FPGA_To_IC13"
	(constraint length (min 42.5mm) (max 43.5mm) (opt 43mm) )
	(condition "A.NetClass == 'DDR4_CMD' && A.fromTo('IC14-*','IC13-*' )" )
)
"#;

#[test]
fn parses_the_real_vme_wren_demo_file_with_no_warnings() {
    let parsed = parse_design_rules(VME_WREN_DRU).unwrap();
    assert!(parsed.warnings.is_empty(), "unexpected warnings: {:?}", parsed.warnings);
    assert_eq!(parsed.design_rules.version, Some(1));
    assert_eq!(parsed.design_rules.rules.len(), 4);
}

#[test]
fn parses_a_rule_with_no_layer_clause_and_a_boolean_or_condition() {
    let parsed = parse_design_rules(VME_WREN_DRU).unwrap();
    let rule = &parsed.design_rules.rules[0];
    assert_eq!(rule.name, "clearance_under_fpga");
    assert!(rule.layer.is_empty());
    assert_eq!(
        rule.condition.as_deref(),
        Some("A.intersectsArea('underFPGA') || A.intersectsArea('underDDR')")
    );
    assert_eq!(rule.constraints.len(), 3);
    assert_eq!(rule.constraints[0].kind, "clearance");
    assert_eq!(rule.constraints[0].min_nm, Some(100_000));
    assert_eq!(rule.constraints[0].max_nm, None);
}

#[test]
fn parses_a_rule_with_a_layer_clause_and_all_three_bounds() {
    let parsed = parse_design_rules(VME_WREN_DRU).unwrap();
    let rule = &parsed.design_rules.rules[1];
    assert_eq!(rule.name, "zdiff_100R_outer");
    assert_eq!(rule.layer, vec!["outer".to_string()]);
    let track_width = &rule.constraints[0];
    assert_eq!(track_width.kind, "track_width");
    assert_eq!(track_width.min_nm, Some(115_000));
    assert_eq!(track_width.max_nm, Some(115_000));
    assert_eq!(track_width.opt_nm, Some(115_000));
    let uncoupled = &rule.constraints[2];
    assert_eq!(uncoupled.kind, "diff_pair_uncoupled");
    assert_eq!(uncoupled.min_nm, None);
    assert_eq!(uncoupled.max_nm, Some(5_000_000));
}

#[test]
fn parses_a_net_class_equality_condition() {
    let parsed = parse_design_rules(VME_WREN_DRU).unwrap();
    let rule = &parsed.design_rules.rules[2];
    assert_eq!(rule.condition.as_deref(), Some("A.NetClass == 'zse_50r' "));
}

#[test]
fn parses_a_from_to_condition_with_boolean_and() {
    let parsed = parse_design_rules(VME_WREN_DRU).unwrap();
    let rule = &parsed.design_rules.rules[3];
    assert_eq!(
        rule.condition.as_deref(),
        Some("A.NetClass == 'DDR4_CMD' && A.fromTo('IC14-*','IC13-*' )")
    );
    assert_eq!(rule.constraints[0].kind, "length");
    assert_eq!(rule.constraints[0].min_nm, Some(42_500_000));
    assert_eq!(rule.constraints[0].max_nm, Some(43_500_000));
    assert_eq!(rule.constraints[0].opt_nm, Some(43_000_000));
}

#[test]
fn missing_version_and_unrecognized_top_level_forms_are_warned_not_fatal() {
    let parsed = parse_design_rules("(rule \"a\")\n(something_else 1 2)").unwrap();
    assert_eq!(parsed.design_rules.version, None);
    assert_eq!(parsed.design_rules.rules.len(), 1);
    assert_eq!(parsed.warnings.len(), 1);
    assert!(parsed.warnings[0].contains("something_else"));
}

#[test]
fn a_rule_with_no_name_is_skipped_and_warned() {
    let parsed = parse_design_rules("(version 1)\n(rule)").unwrap();
    assert!(parsed.design_rules.rules.is_empty());
    assert_eq!(parsed.warnings.len(), 1);
}

#[test]
fn an_unparseable_unit_suffix_is_skipped_not_guessed_at() {
    let parsed =
        parse_design_rules(r#"(rule "r" (constraint clearance (min 4mil)) (condition "true"))"#).unwrap();
    assert_eq!(parsed.design_rules.rules[0].constraints[0].min_nm, None);
}

#[test]
fn rejects_invalid_sexpr_syntax() {
    assert!(parse_design_rules("(rule \"a\"").is_err());
}

#[test]
fn negative_and_fractional_millimetres_round_to_nanometres() {
    let parsed = parse_design_rules(
        r#"(rule "r" (constraint track_width (min -0.0000004mm) (max 1.2345675mm) (opt 2mm)))"#,
    )
    .unwrap();
    let c = &parsed.design_rules.rules[0].constraints[0];
    assert_eq!(c.min_nm, Some(0));
    assert_eq!(c.max_nm, Some(1_234_568));
    assert_eq!(c.opt_nm, Some(2_000_000));
}
