//! Checks track items against parsed `.kicad_dru` design rules, building
//! each track's condition facts from the board.
//!
//! Only `track_width` on tracks is checked: `length` needs whole
//! connections, `clearance` is pairwise and `disallow` has no bound.
//! Diff-pair partners, rule-area intersection and connection endpoints
//! (`fromTo`'s facts) are derived from the board per track.

use vstd::prelude::*;

use crate::drc::violation::ItemRef;
use crate::geom::polygon::spec_intersects_segment;
use crate::geom::segment::Segment;
use crate::kicad::dru::{Constraint, ConstraintView, DesignRules};
use crate::kicad::dru_eval::{
    opt_str_view, resolve_constraint, resolve_upto, rules_view, strip_one, strip_suffix,
    EndpointFacts, EndpointView, FactsView, ItemFacts,
};
use crate::model::board::{class_of, net_index, net_named, spec_two_pin, Board};
use crate::model::items::{NetId, Pad, Track};
use crate::text::{chars_of, owned, push_str};

verus! {

/// Which side of a `(min ..)` / `(max ..)` bound a violation broke.
#[derive(Debug, Clone, Copy, PartialEq, Eq, Structural)]
pub enum Bound {
    Min,
    Max,
}

/// One item's measured value outside a resolved constraint's bound.
#[derive(Debug, Clone, PartialEq, Eq)]
pub struct CustomRuleViolation {
    pub item: ItemRef,
    pub rule_name: String,
    pub constraint_kind: String,
    pub bound: Bound,
    pub required_nm: i64,
    pub actual_nm: i64,
}

pub struct CustomRuleViolationView {
    pub item: ItemRef,
    pub rule_name: Seq<char>,
    pub constraint_kind: Seq<char>,
    pub bound: Bound,
    pub required_nm: i64,
    pub actual_nm: i64,
}

impl View for CustomRuleViolation {
    type V = CustomRuleViolationView;

    open spec fn view(&self) -> CustomRuleViolationView {
        CustomRuleViolationView {
            item: self.item,
            rule_name: self.rule_name@,
            constraint_kind: self.constraint_kind@,
            bound: self.bound,
            required_nm: self.required_nm,
            actual_nm: self.actual_nm,
        }
    }
}

/// The names (in board order) of the first `k` rule areas whose outline
/// intersects `seg`.
pub open spec fn areas_upto(b: &Board, seg: Segment, k: int) -> Seq<Seq<char>>
    decreases k,
{
    if k <= 0 {
        Seq::empty()
    } else {
        let prev = areas_upto(b, seg, k - 1);
        let area = b.rule_areas@[k - 1];
        if spec_intersects_segment(area.outline.vertices@, seg) {
            prev.push(area.name@)
        } else {
            prev
        }
    }
}

pub open spec fn spec_areas(b: &Board, seg: Segment) -> Seq<Seq<char>> {
    areas_upto(b, seg, b.rule_areas@.len() as int)
}

/// The companion net name of a diff pair: for a name ending in `_P`
/// (`_N`, `+`, `-`) the same base with `_N` (`_P`, `-`, `+`), when a net
/// with that name exists.
pub open spec fn spec_partner_name(b: &Board, name: Seq<char>) -> Option<Seq<char>> {
    match strip_suffix(name, seq!['_', 'P']) {
        Some(base) => net_named(b.nets@, base + seq!['_', 'N']),
        None => match strip_suffix(name, seq!['_', 'N']) {
            Some(base) => net_named(b.nets@, base + seq!['_', 'P']),
            None => match strip_suffix(name, seq!['+']) {
                Some(base) => net_named(b.nets@, base + seq!['-']),
                None => match strip_suffix(name, seq!['-']) {
                    Some(base) => net_named(b.nets@, base + seq!['+']),
                    None => None,
                },
            },
        },
    }
}

pub open spec fn pad_endpoint_view(p: Pad) -> EndpointView {
    EndpointView {
        reference: match p.reference {
            Some(r) => Some(r@),
            None => None,
        },
        number: match p.number {
            Some(n) => Some(n@),
            None => None,
        },
    }
}

/// The facts of `track`: its net's class and name, the diff-pair
/// partner, the given intersected areas, and the two pads of a 2-pin net.
pub open spec fn spec_track_facts(b: &Board, t: Track, areas: Seq<Seq<char>>) -> FactsView {
    let net_name = match net_index(b.nets@, t.net) {
        Some(i) => Some(b.nets@[i].name@),
        None => None,
    };
    FactsView {
        net_class: match class_of(b, t.net) {
            Some(i) => Some(b.net_classes@[i].name@),
            None => None,
        },
        net_name,
        partner: match net_name {
            Some(n) => spec_partner_name(b, n),
            None => None,
        },
        areas,
        endpoints: match spec_two_pin(b, t.net) {
            Some((i, j)) => Some((pad_endpoint_view(b.pads@[i]), pad_endpoint_view(b.pads@[j]))),
            None => None,
        },
    }
}

/// The bound `actual` breaks, with the bound's value: the minimum first.
pub open spec fn spec_bound_violated(actual: i64, c: ConstraintView) -> Option<(Bound, i64)> {
    if c.min_nm is Some && actual < c.min_nm->0 {
        Some((Bound::Min, c.min_nm->0))
    } else if c.max_nm is Some && actual > c.max_nm->0 {
        Some((Bound::Max, c.max_nm->0))
    } else {
        None
    }
}

/// The violation of track `t`, if its resolved `track_width` constraint
/// has a bound its width breaks.
pub open spec fn spec_track_violation(b: &Board, dr: &DesignRules, t: Track) -> Option<
    CustomRuleViolationView,
> {
    let rules = rules_view(dr.rules@);
    let facts = spec_track_facts(b, t, spec_areas(b, t.segment));
    match resolve_upto(rules, facts, "track_width"@, rules.len() as int) {
        None => None,
        Some((i, k)) => match spec_bound_violated(t.width_nm, rules[i].constraints[k]) {
            None => None,
            Some((bound, required)) => Some(
                CustomRuleViolationView {
                    item: ItemRef::Track(t.id),
                    rule_name: rules[i].name,
                    constraint_kind: "track_width"@,
                    bound,
                    required_nm: required,
                    actual_nm: t.width_nm,
                },
            ),
        },
    }
}

/// The violations of the first `n` tracks, in board order.
pub open spec fn track_violations_upto(b: &Board, dr: &DesignRules, n: int) -> Seq<
    CustomRuleViolationView,
>
    decreases n,
{
    if n <= 0 {
        Seq::empty()
    } else {
        let prev = track_violations_upto(b, dr, n - 1);
        match spec_track_violation(b, dr, b.tracks@[n - 1]) {
            Some(v) => prev.push(v),
            None => prev,
        }
    }
}

/// Checks every track's width against the `track_width` constraint that
/// applies to it (the last matching rule wins). Tracks with no matching
/// rule are not reported.
pub fn check_track_width(board: &Board, design_rules: &DesignRules) -> (r: Vec<CustomRuleViolation>)
    requires
        board.geometry_valid(),
    ensures
        r@.map_values(|v: CustomRuleViolation| v@) == track_violations_upto(
            board,
            design_rules,
            board.tracks@.len() as int,
        ),
{
    let mut violations: Vec<CustomRuleViolation> = Vec::new();
    let mut ti: usize = 0;
    while ti < board.tracks.len()
        invariant
            ti <= board.tracks@.len(),
            board.geometry_valid(),
            violations@.map_values(|v: CustomRuleViolation| v@) == track_violations_upto(
                board,
                design_rules,
                ti as int,
            ),
        decreases board.tracks@.len() - ti,
    {
        let track = &board.tracks[ti];
        let areas = intersected_areas(board, track.segment);
        let facts = track_item_facts(board, track, areas.as_slice());
        let ghost before = violations@.map_values(|v: CustomRuleViolation| v@);
        let rules = design_rules.rules.as_slice();
        let resolved = resolve_constraint(rules, &facts, "track_width");
        proof {
            assert(rules@ == design_rules.rules@);
            assert(facts@ == spec_track_facts(board, *track, spec_areas(board, track.segment)));
            crate::kicad::dru_eval::lemma_resolve_bounds_pub(rules_view(rules@), facts@, "track_width"@);
        }
        if let Some((rule, constraint)) = resolved {
            proof {
                let (i, k) = resolve_upto(rules_view(rules@), facts@, "track_width"@, rules@.len() as int)->0;
                assert(rules_view(rules@)[i] == rules@[i]@);
                assert(constraint@ == rules_view(rules@)[i].constraints[k]);
            }
            if let Some((bound, required_nm)) = bound_violated(track.width_nm, constraint) {
                violations.push(
                    CustomRuleViolation {
                        item: ItemRef::Track(track.id),
                        rule_name: owned(rule.name.as_str()),
                        constraint_kind: owned("track_width"),
                        bound,
                        required_nm,
                        actual_nm: track.width_nm,
                    },
                );
                proof {
                    assert(violations@.map_values(|v: CustomRuleViolation| v@) =~= before.push(
                        violations@[violations@.len() - 1]@,
                    ));
                }
            } else {
                proof {
                    assert(violations@.map_values(|v: CustomRuleViolation| v@) =~= before);
                }
            }
        } else {
            proof {
                assert(violations@.map_values(|v: CustomRuleViolation| v@) =~= before);
            }
        }
        ti += 1;
    }
    violations
}

fn bound_violated(actual_nm: i64, constraint: &Constraint) -> (r: Option<(Bound, i64)>)
    ensures
        r == spec_bound_violated(actual_nm, constraint@),
{
    if let Some(min) = constraint.min_nm {
        if actual_nm < min {
            return Some((Bound::Min, min));
        }
    }
    if let Some(max) = constraint.max_nm {
        if actual_nm > max {
            return Some((Bound::Max, max));
        }
    }
    None
}

/// The names of the rule areas whose outline intersects `seg`.
fn intersected_areas<'a>(board: &'a Board, seg: Segment) -> (r: Vec<&'a str>)
    requires
        board.geometry_valid(),
        seg.in_range(),
    ensures
        r@.map_values(|s: &str| s@) == spec_areas(board, seg),
{
    let mut names: Vec<&'a str> = Vec::new();
    let mut k: usize = 0;
    while k < board.rule_areas.len()
        invariant
            k <= board.rule_areas@.len(),
            board.geometry_valid(),
            seg.in_range(),
            names@.map_values(|s: &str| s@) == areas_upto(board, seg, k as int),
        decreases board.rule_areas@.len() - k,
    {
        let area = &board.rule_areas[k];
        let ghost before = names@.map_values(|s: &str| s@);
        if area.outline.intersects_segment(seg) {
            names.push(area.name.as_str());
            proof {
                assert(names@.map_values(|s: &str| s@) =~= before.push(area.name@));
            }
        }
        k += 1;
    }
    names
}

/// Builds the condition facts of `track` from the board; `areas` are the
/// names of the rule areas its segment intersects.
fn track_item_facts<'a>(board: &'a Board, track: &Track, areas: &'a [&'a str]) -> (r: ItemFacts<'a>)
    ensures
        r@ == spec_track_facts(board, *track, areas@.map_values(|s: &str| s@)),
{
    let net_class = match board.net_class_for(track.net) {
        Some(c) => Some(c.name.as_str()),
        None => None,
    };
    let net_name = match board.find_net(track.net) {
        Some(i) => Some(board.nets[i].name.as_str()),
        None => None,
    };
    let diff_pair_partner_net_name = match net_name {
        Some(name) => diff_pair_partner_name(board, name),
        None => None,
    };
    ItemFacts {
        net_class,
        net_name,
        diff_pair_partner_net_name,
        areas,
        connection_endpoints: connection_endpoints_for(board, track.net),
    }
}

fn connection_endpoints_for(board: &Board, net: NetId) -> (r: Option<[EndpointFacts<'_>; 2]>)
    ensures
        match (r, spec_two_pin(board, net)) {
            (Some(eps), Some((i, j))) => eps@[0]@ == pad_endpoint_view(board.pads@[i])
                && eps@[1]@ == pad_endpoint_view(board.pads@[j]),
            (None, None) => true,
            _ => false,
        },
{
    match board.two_pin_net_endpoints(net) {
        Some(ps) => Some([endpoint_facts(ps[0]), endpoint_facts(ps[1])]),
        None => None,
    }
}

fn endpoint_facts(pad: &Pad) -> (r: EndpointFacts<'_>)
    ensures
        r@ == pad_endpoint_view(*pad),
{
    EndpointFacts {
        reference: match &pad.reference {
            Some(s) => Some(s.as_str()),
            None => None,
        },
        number: match &pad.number {
            Some(s) => Some(s.as_str()),
            None => None,
        },
    }
}

/// `base` followed by `suffix`, looked up among the board's net names.
fn lookup_companion<'a>(board: &'a Board, base: String, suffix: &str) -> (r: Option<&'a str>)
    ensures
        opt_str_view(r) == net_named(board.nets@, base@ + suffix@),
{
    let mut companion = base;
    push_str(&mut companion, suffix);
    match board.find_net_named(&companion) {
        Some(i) => Some(board.nets[i].name.as_str()),
        None => {
            proof {
                assert(!exists|i: int|
                    0 <= i < board.nets@.len() && (#[trigger] board.nets@[i]).name@ == companion@);
            }
            None
        },
    }
}

/// The companion net of a diff pair named `name`: for a `_P` (`_N`, `+`,
/// `-`) suffix, the net with the same base and the opposite suffix, if
/// one exists. Other suffixes are not recognized.
fn diff_pair_partner_name<'a>(board: &'a Board, name: &str) -> (r: Option<&'a str>)
    ensures
        opt_str_view(r) == spec_partner_name(board, name@),
{
    let v = chars_of(name);
    let sp = vec!['_', 'P'];
    let sn = vec!['_', 'N'];
    let plus = vec!['+'];
    let minus = vec!['-'];
    proof {
        assert(sp@ =~= seq!['_', 'P']);
        assert(sn@ =~= seq!['_', 'N']);
        assert(plus@ =~= seq!['+']);
        assert(minus@ =~= seq!['-']);
        reveal_strlit("_N");
        reveal_strlit("_P");
        reveal_strlit("-");
        reveal_strlit("+");
        assert("_N"@ =~= seq!['_', 'N']);
        assert("_P"@ =~= seq!['_', 'P']);
        assert("-"@ =~= seq!['-']);
        assert("+"@ =~= seq!['+']);
    }
    if let Some(base) = strip_one(&v, &sp) {
        return lookup_companion(board, base, "_N");
    }
    if let Some(base) = strip_one(&v, &sn) {
        return lookup_companion(board, base, "_P");
    }
    if let Some(base) = strip_one(&v, &plus) {
        return lookup_companion(board, base, "-");
    }
    if let Some(base) = strip_one(&v, &minus) {
        return lookup_companion(board, base, "+");
    }
    None
}

} // verus!
