//! Parses `.kicad_dru` custom design-rule files — a bare sequence of
//! `(version N)` and `(rule "name" (layer ...)? (constraint <kind> (min ..)
//! (max ..) (opt ..))* (condition "..."))` forms — into `DesignRules`.
//! Condition text is kept verbatim here; `dru_expr` parses it and
//! `dru_eval` evaluates it.

use vstd::prelude::*;

use crate::kicad::sexpr::{
    lemma_view_children, p_all, parse_all, v_as_atom, v_atom, v_children, v_find, v_find_all,
    v_head, ParseError, Sexpr, SexprView,
};
use crate::text::{chars_of, owned, parse_mm_nm, push_str, spec_parse_mm_nm};

verus! {

#[derive(Debug)]
pub enum ParseDesignRulesError {
    Syntax(ParseError),
}

#[derive(Debug, PartialEq)]
pub struct DesignRules {
    /// The declared format version, `None` if absent or unparseable.
    pub version: Option<i64>,
    pub rules: Vec<Rule>,
}

/// One `(rule "name" ...)` block; `layer` and `condition` are the raw text
/// KiCad wrote.
#[derive(Debug, PartialEq)]
pub struct Rule {
    pub name: String,
    /// Every atom after the `layer` tag, empty without a `(layer ...)`.
    pub layer: Vec<String>,
    pub constraints: Vec<Constraint>,
    pub condition: Option<String>,
}

/// One `(constraint <kind> (min ..) (max ..) (opt ..))` clause; each bound
/// is independently optional, in nanometres.
#[derive(Debug, PartialEq)]
pub struct Constraint {
    pub kind: String,
    pub min_nm: Option<i64>,
    pub max_nm: Option<i64>,
    pub opt_nm: Option<i64>,
    /// The bare atoms after the kind, e.g. the item types of a `disallow`.
    pub args: Vec<String>,
}

#[derive(Debug)]
pub struct ParsedDesignRules {
    pub design_rules: DesignRules,
    /// Malformed or unrecognized forms that were skipped, one note each.
    pub warnings: Vec<String>,
}

pub struct ConstraintView {
    pub kind: Seq<char>,
    pub min_nm: Option<i64>,
    pub max_nm: Option<i64>,
    pub opt_nm: Option<i64>,
    pub args: Seq<Seq<char>>,
}

pub struct RuleView {
    pub name: Seq<char>,
    pub layer: Seq<Seq<char>>,
    pub constraints: Seq<ConstraintView>,
    pub condition: Option<Seq<char>>,
}

pub struct DesignRulesView {
    pub version: Option<i64>,
    pub rules: Seq<RuleView>,
}

pub open spec fn strings_view(v: Seq<String>) -> Seq<Seq<char>> {
    v.map_values(|s: String| s@)
}

impl View for Constraint {
    type V = ConstraintView;

    open spec fn view(&self) -> ConstraintView {
        ConstraintView {
            kind: self.kind@,
            min_nm: self.min_nm,
            max_nm: self.max_nm,
            opt_nm: self.opt_nm,
            args: strings_view(self.args@),
        }
    }
}

impl View for Rule {
    type V = RuleView;

    open spec fn view(&self) -> RuleView {
        RuleView {
            name: self.name@,
            layer: strings_view(self.layer@),
            constraints: self.constraints@.map_values(|c: Constraint| c@),
            condition: match self.condition {
                Some(c) => Some(c@),
                None => None,
            },
        }
    }
}

impl View for DesignRules {
    type V = DesignRulesView;

    open spec fn view(&self) -> DesignRulesView {
        DesignRulesView {
            version: self.version,
            rules: self.rules@.map_values(|r: Rule| r@),
        }
    }
}

/// The atoms (in order) among `items`.
pub open spec fn atoms_of(items: Seq<SexprView>) -> Seq<Seq<char>>
    decreases items.len(),
{
    if items.len() == 0 {
        Seq::empty()
    } else {
        let prev = atoms_of(items.drop_last());
        match items.last() {
            SexprView::Atom(a) => prev.push(a),
            SexprView::List(_) => prev,
        }
    }
}

/// `"<value>mm"` in whole nanometres; only the `mm` suffix is accepted.
pub open spec fn spec_nm_with_unit(t: Seq<char>) -> Option<i64> {
    if t.len() >= 2 && t[t.len() - 2] == 'm' && t[t.len() - 1] == 'm' {
        spec_parse_mm_nm(t.subrange(0, t.len() - 2))
    } else {
        None
    }
}

/// The value of a `(tag <value>mm)` child, if present and parseable.
pub open spec fn spec_bound(c: SexprView, tag: Seq<char>) -> Option<i64> {
    match v_find(c, tag) {
        Some(b) => match v_atom(b, 1) {
            Some(t) => spec_nm_with_unit(t),
            None => None,
        },
        None => None,
    }
}

/// A constraint clause; `None` when it has no kind.
pub open spec fn spec_constraint(c: SexprView) -> Option<ConstraintView> {
    match v_atom(c, 1) {
        None => None,
        Some(kind) => Some(
            ConstraintView {
                kind,
                min_nm: spec_bound(c, "min"@),
                max_nm: spec_bound(c, "max"@),
                opt_nm: spec_bound(c, "opt"@),
                args: atoms_of(v_children(c).subrange(2, v_children(c).len() as int)),
            },
        ),
    }
}

/// The constraints of the first `k` constraint clauses, and a warning for
/// each clause without a kind.
pub open spec fn constraints_upto(cs: Seq<SexprView>, name: Seq<char>, k: int) -> (
    Seq<ConstraintView>,
    Seq<Seq<char>>,
)
    decreases k,
{
    if k <= 0 {
        (Seq::empty(), Seq::empty())
    } else {
        let (prev, warns) = constraints_upto(cs, name, k - 1);
        match spec_constraint(cs[k - 1]) {
            Some(c) => (prev.push(c), warns),
            None => (prev, warns.push("rule '"@ + name + "': skipped a constraint with no kind"@)),
        }
    }
}

/// The atoms after the `layer` tag of the rule's first `(layer ...)`.
pub open spec fn spec_layer(r: SexprView) -> Seq<Seq<char>> {
    match v_find(r, "layer"@) {
        Some(l) => match l {
            SexprView::List(items) => atoms_of(items.subrange(1, items.len() as int)),
            SexprView::Atom(_) => Seq::empty(),
        },
        None => Seq::empty(),
    }
}

/// A rule block, with its constraint warnings; `None` when it has no name.
pub open spec fn spec_rule(r: SexprView) -> Option<(RuleView, Seq<Seq<char>>)> {
    match v_atom(r, 1) {
        None => None,
        Some(name) => {
            let cs = v_find_all(r, "constraint"@);
            let (constraints, warns) = constraints_upto(cs, name, cs.len() as int);
            Some(
                (
                    RuleView {
                        name,
                        layer: spec_layer(r),
                        constraints,
                        condition: match v_find(r, "condition"@) {
                            Some(c) => v_atom(c, 1),
                            None => None,
                        },
                    },
                    warns,
                ),
            )
        },
    }
}

/// The design rules and warnings from the first `k` top-level forms.
pub open spec fn rules_upto(es: Seq<SexprView>, k: int) -> (DesignRulesView, Seq<Seq<char>>)
    decreases k,
{
    if k <= 0 {
        (DesignRulesView { version: None, rules: Seq::empty() }, Seq::empty())
    } else {
        let (dr, warns) = rules_upto(es, k - 1);
        let e = es[k - 1];
        match v_head(e) {
            Some(tag) => if tag == "version"@ {
                match v_atom(e, 1) {
                    Some(t) => match crate::text::spec_parse_i64(t) {
                        Some(v) => (DesignRulesView { version: Some(v), rules: dr.rules }, warns),
                        None => (dr, warns.push("skipped malformed (version ...) declaration"@)),
                    },
                    None => (dr, warns.push("skipped malformed (version ...) declaration"@)),
                }
            } else if tag == "rule"@ {
                match spec_rule(e) {
                    Some((r, w)) => (
                        DesignRulesView { version: dr.version, rules: dr.rules.push(r) },
                        warns + w,
                    ),
                    None => (dr, warns.push("skipped a (rule ...) block with no name"@)),
                }
            } else {
                (dr, warns.push("skipped unrecognized top-level form '"@ + tag + "'"@))
            },
            None => (dr, warns.push("skipped a top-level form that wasn't a tagged list"@)),
        }
    }
}

/// `.kicad_dru` text to design rules and warnings, or the syntax error.
pub open spec fn spec_parse_design_rules(text: Seq<char>) -> Result<
    (DesignRulesView, Seq<Seq<char>>),
    Seq<char>,
> {
    match p_all(text, 0) {
        Err(m) => Err(m),
        Ok(es) => Ok(rules_upto(es, es.len() as int)),
    }
}

fn atom_text(e: &Sexpr, index: usize) -> (r: Option<String>)
    ensures
        match r {
            Some(s) => v_atom(e@, index as int) == Some(s@),
            None => v_atom(e@, index as int).is_none(),
        },
{
    match e.atom(index) {
        Some(a) => Some(owned(a)),
        None => None,
    }
}

/// The atoms among `items[from..]`, as owned strings.
fn collect_atoms(items: &[Sexpr], from: usize) -> (r: Vec<String>)
    ensures
        strings_view(r@) == atoms_of(
            items@.map_values(|x: Sexpr| x@).subrange(
                if from <= items@.len() { from as int } else { items@.len() as int },
                items@.len() as int,
            ),
        ),
{
    let ghost vs = items@.map_values(|x: Sexpr| x@);
    let start = if from <= items.len() {
        from
    } else {
        items.len()
    };
    let mut out: Vec<String> = Vec::new();
    let mut i = start;
    while i < items.len()
        invariant
            start <= i <= items@.len(),
            vs == items@.map_values(|x: Sexpr| x@),
            strings_view(out@) == atoms_of(vs.subrange(start as int, i as int)),
        decreases items@.len() - i,
    {
        proof {
            assert(vs.subrange(start as int, i + 1).drop_last() =~= vs.subrange(start as int, i as int));
            assert(vs.subrange(start as int, i + 1).last() == items@[i as int]@);
            lemma_view_children(&items@[i as int]);
        }
        let ghost before = out@;
        match items[i].as_atom() {
            Some(a) => {
                out.push(owned(a));
                proof {
                    assert(strings_view(out@) =~= strings_view(before).push(a@));
                }
            },
            None => {},
        }
        i += 1;
    }
    out
}

/// `"0.1mm"` to nanometres; only the `mm` suffix is accepted.
fn nm_with_unit(token: &str) -> (r: Option<i64>)
    ensures
        r == spec_nm_with_unit(token@),
{
    let v = chars_of(token);
    let n = v.len();
    if n >= 2 && v[n - 2] == 'm' && v[n - 1] == 'm' {
        parse_mm_nm(&v, 0, n - 2)
    } else {
        None
    }
}

fn parse_bound(c: &Sexpr, tag: &str) -> (r: Option<i64>)
    ensures
        r == spec_bound(c@, tag@),
{
    match c.find(tag) {
        Some(b) => match b.atom(1) {
            Some(t) => nm_with_unit(t),
            None => None,
        },
        None => None,
    }
}

fn parse_one_constraint(expr: &Sexpr) -> (r: Option<Constraint>)
    ensures
        match r {
            Some(c) => spec_constraint(expr@) == Some(c@),
            None => spec_constraint(expr@).is_none(),
        },
{
    let kind = match atom_text(expr, 1) {
        Some(k) => k,
        None => return None,
    };
    let min_nm = parse_bound(expr, "min");
    let max_nm = parse_bound(expr, "max");
    let opt_nm = parse_bound(expr, "opt");
    proof {
        lemma_view_children(expr);
    }
    let args = match expr.as_list() {
        Some(items) => {
            let a = collect_atoms(items, 2);
            proof {
                assert(items@.map_values(|x: Sexpr| x@) =~= v_children(expr@));
            }
            a
        },
        None => Vec::new(),
    };
    Some(Constraint { kind, min_nm, max_nm, opt_nm, args })
}

fn parse_layer(expr: &Sexpr) -> (r: Vec<String>)
    ensures
        strings_view(r@) == spec_layer(expr@),
{
    match expr.find("layer") {
        Some(l) => {
            proof {
                lemma_view_children(l);
            }
            match l.as_list() {
                Some(items) => {
                    let a = collect_atoms(items, 1);
                    proof {
                        assert(items@.map_values(|x: Sexpr| x@) =~= v_children(l@));
                        if items@.len() == 0 {
                            assert(atoms_of(Seq::<SexprView>::empty()) =~= Seq::<Seq<char>>::empty());
                        }
                    }
                    a
                },
                None => Vec::new(),
            }
        },
        None => Vec::new(),
    }
}

fn parse_one_rule(expr: &Sexpr, warnings: &mut Vec<String>) -> (r: Option<Rule>)
    ensures
        match r {
            Some(rule) => spec_rule(expr@) matches Some((rv, w)) && rule@ == rv
                && strings_view(final(warnings)@) == strings_view(old(warnings)@) + w,
            None => spec_rule(expr@).is_none() && final(warnings)@ == old(warnings)@,
        },
{
    let name = match atom_text(expr, 1) {
        Some(n) => n,
        None => return None,
    };
    let layer = parse_layer(expr);
    let cs = expr.find_all("constraint");
    let ghost csv = cs@.map_values(|c: &Sexpr| c@);
    let ghost w0 = strings_view(warnings@);
    let mut constraints: Vec<Constraint> = Vec::new();
    let mut i: usize = 0;
    while i < cs.len()
        invariant
            0 <= i <= cs@.len(),
            csv == cs@.map_values(|c: &Sexpr| c@),
            constraints@.map_values(|c: Constraint| c@) == constraints_upto(csv, name@, i as int).0,
            strings_view(warnings@) == w0 + constraints_upto(csv, name@, i as int).1,
        decreases cs@.len() - i,
    {
        let ghost before_c = constraints@;
        let ghost before_w = warnings@;
        match parse_one_constraint(cs[i]) {
            Some(c) => {
                constraints.push(c);
                proof {
                    assert(constraints@.map_values(|c: Constraint| c@) =~= before_c.map_values(|c: Constraint| c@).push(c@));
                }
            },
            None => {
                let mut w = owned("rule '");
                push_str(&mut w, name.as_str());
                push_str(&mut w, "': skipped a constraint with no kind");
                warnings.push(w);
                proof {
                    assert(strings_view(warnings@) =~= strings_view(before_w).push(w@));
                }
            },
        }
        i += 1;
    }
    let condition = match expr.find("condition") {
        Some(c) => atom_text(c, 1),
        None => None,
    };
    Some(Rule { name, layer, constraints, condition })
}

/// Parses `dru_text` (a `.kicad_dru` file's contents). Fails only on
/// invalid S-expression syntax; anything semantically malformed within
/// valid syntax is skipped and reported in `warnings`.
pub fn parse_design_rules(dru_text: &str) -> (r: Result<ParsedDesignRules, ParseDesignRulesError>)
    ensures
        match (r, spec_parse_design_rules(dru_text@)) {
            (Ok(p), Ok((dr, w))) => p.design_rules@ == dr && strings_view(p.warnings@) == w,
            (Err(ParseDesignRulesError::Syntax(e)), Err(m)) => e.0@ == m,
            _ => false,
        },
{
    let exprs = match parse_all(dru_text) {
        Ok(es) => es,
        Err(e) => return Err(ParseDesignRulesError::Syntax(e)),
    };
    let ghost es = exprs@.map_values(|x: Sexpr| x@);
    let mut warnings: Vec<String> = Vec::new();
    let mut version: Option<i64> = None;
    let mut rules: Vec<Rule> = Vec::new();
    let version_tag = owned("version");
    let rule_tag = owned("rule");
    let mut k: usize = 0;
    while k < exprs.len()
        invariant
            0 <= k <= exprs@.len(),
            es == exprs@.map_values(|x: Sexpr| x@),
            version_tag@ == "version"@,
            rule_tag@ == "rule"@,
            version == rules_upto(es, k as int).0.version,
            rules@.map_values(|r: Rule| r@) == rules_upto(es, k as int).0.rules,
            strings_view(warnings@) == rules_upto(es, k as int).1,
        decreases exprs@.len() - k,
    {
        let expr = &exprs[k];
        let ghost before_r = rules@;
        let ghost before_w = warnings@;
        if expr.has_head(&version_tag) {
            let parsed = match expr.atom(1) {
                Some(t) => {
                    let v = chars_of(t);
                    proof {
                        assert(v@.subrange(0, v@.len() as int) =~= v@);
                    }
                    crate::text::parse_i64(&v, 0, v.len())
                },
                None => None,
            };
            match parsed {
                Some(v) => {
                    version = Some(v);
                },
                None => {
                    warnings.push(owned("skipped malformed (version ...) declaration"));
                    proof {
                        assert(strings_view(warnings@) =~= strings_view(before_w).push("skipped malformed (version ...) declaration"@));
                    }
                },
            }
        } else if expr.has_head(&rule_tag) {
            match parse_one_rule(expr, &mut warnings) {
                Some(rule) => {
                    let ghost rv = rule@;
                    rules.push(rule);
                    proof {
                        assert(rules@.map_values(|r: Rule| r@) =~= before_r.map_values(|r: Rule| r@).push(rv));
                    }
                },
                None => {
                    warnings.push(owned("skipped a (rule ...) block with no name"));
                    proof {
                        assert(strings_view(warnings@) =~= strings_view(before_w).push("skipped a (rule ...) block with no name"@));
                    }
                },
            }
        } else {
            match expr.head() {
                Some(other) => {
                    let mut w = owned("skipped unrecognized top-level form '");
                    push_str(&mut w, other);
                    push_str(&mut w, "'");
                    warnings.push(w);
                    proof {
                        assert(strings_view(warnings@) =~= strings_view(before_w).push(w@));
                    }
                },
                None => {
                    warnings.push(owned("skipped a top-level form that wasn't a tagged list"));
                    proof {
                        assert(strings_view(warnings@) =~= strings_view(before_w).push("skipped a top-level form that wasn't a tagged list"@));
                    }
                },
            }
        }
        k += 1;
    }
    Ok(ParsedDesignRules { design_rules: DesignRules { version, rules }, warnings })
}

} // verus!
