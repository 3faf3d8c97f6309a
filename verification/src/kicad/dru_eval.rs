//! Evaluates a `.kicad_dru` condition `Expr` against one board item's
//! facts, and resolves which constraint applies when several rules match.
//!
//! - `fromTo` and pairwise conditions are symmetric: the two endpoints are
//!   tried in both orders.
//! - `fromTo` matches a pattern against two candidates per endpoint,
//!   `"reference-number"` and bare `"reference"`, case-insensitively.
//! - `intersectsArea` / `insideArea` match a rule area's name,
//!   case-sensitively; both behave the same.
//! - `inDiffPair` matches the diff pair's base name (net name without its
//!   `_P`/`_N` or `+`/`-` suffix), case-sensitively, and only when a
//!   partner net exists.
//! - When several rules with the same constraint kind match, the
//!   last-declared one applies.

use vstd::prelude::*;

use crate::kicad::dru::{Constraint, ConstraintView, Rule, RuleView};
use crate::kicad::dru_expr::{
    parse_condition, spec_parse_condition, Expr, ExprView, Predicate, PredicateView,
};
use crate::text::{chars_of, lowercase, owned, push_str, str_eq, to_lowercase};

verus! {

/// The facts a condition is evaluated against for one board item. Every
/// field may be absent; a predicate whose fact is missing is false.
#[derive(Debug, Clone)]
pub struct ItemFacts<'a> {
    pub net_class: Option<&'a str>,
    /// The item's own net name, e.g. `"SIG_P"`.
    pub net_name: Option<&'a str>,
    /// The name of the net's diff-pair companion, if one exists.
    pub diff_pair_partner_net_name: Option<&'a str>,
    /// Names of every rule area the item's geometry intersects.
    pub areas: &'a [&'a str],
    /// The two terminal pads of the item's connection.
    pub connection_endpoints: Option<[EndpointFacts<'a>; 2]>,
}

#[derive(Debug, Clone, Copy)]
pub struct EndpointFacts<'a> {
    pub reference: Option<&'a str>,
    pub number: Option<&'a str>,
}

pub struct EndpointView {
    pub reference: Option<Seq<char>>,
    pub number: Option<Seq<char>>,
}

pub struct FactsView {
    pub net_class: Option<Seq<char>>,
    pub net_name: Option<Seq<char>>,
    pub partner: Option<Seq<char>>,
    pub areas: Seq<Seq<char>>,
    pub endpoints: Option<(EndpointView, EndpointView)>,
}

pub open spec fn opt_str_view(o: Option<&str>) -> Option<Seq<char>> {
    match o {
        Some(s) => Some(s@),
        None => None,
    }
}

impl<'a> View for EndpointFacts<'a> {
    type V = EndpointView;

    open spec fn view(&self) -> EndpointView {
        EndpointView { reference: opt_str_view(self.reference), number: opt_str_view(self.number) }
    }
}

impl<'a> View for ItemFacts<'a> {
    type V = FactsView;

    open spec fn view(&self) -> FactsView {
        FactsView {
            net_class: opt_str_view(self.net_class),
            net_name: opt_str_view(self.net_name),
            partner: opt_str_view(self.diff_pair_partner_net_name),
            areas: self.areas@.map_values(|s: &str| s@),
            endpoints: match self.connection_endpoints {
                Some(eps) => Some((eps@[0]@, eps@[1]@)),
                None => None,
            },
        }
    }
}

impl<'a> Default for EndpointFacts<'a> {
    fn default() -> (r: Self)
        ensures
            r.reference is None,
            r.number is None,
    {
        EndpointFacts { reference: None, number: None }
    }
}

impl<'a> Default for ItemFacts<'a> {
    fn default() -> (r: Self)
        ensures
            r.net_class is None,
            r.net_name is None,
            r.diff_pair_partner_net_name is None,
            r.areas@.len() == 0,
            r.connection_endpoints is None,
    {
        ItemFacts {
            net_class: None,
            net_name: None,
            diff_pair_partner_net_name: None,
            areas: &[],
            connection_endpoints: None,
        }
    }
}

/// Whether `p[i..]` matches `t[j..]`, where each `*` in the pattern
/// matches any run of characters, including none.
pub open spec fn glob_from(p: Seq<char>, t: Seq<char>, i: int, j: int) -> bool
    decreases p.len() - i, t.len() - j,
{
    if i < 0 || j < 0 || i >= p.len() {
        j >= t.len()
    } else if p[i] == '*' {
        glob_from(p, t, i + 1, j) || (j < t.len() && glob_from(p, t, i, j + 1))
    } else {
        j < t.len() && p[i] == t[j] && glob_from(p, t, i + 1, j + 1)
    }
}

pub open spec fn glob(p: Seq<char>, t: Seq<char>) -> bool {
    glob_from(p, t, 0, 0)
}

proof fn lemma_glob_from_literal(p: Seq<char>, t: Seq<char>, i: int, j: int)
    requires
        0 <= i <= p.len(),
        0 <= j <= t.len(),
        forall|k: int| 0 <= k < p.len() ==> p[k] != '*',
    ensures
        glob_from(p, t, i, j) == (p.subrange(i, p.len() as int) == t.subrange(j, t.len() as int)),
    decreases p.len() - i,
{
    let ps = p.subrange(i, p.len() as int);
    let ts = t.subrange(j, t.len() as int);
    if i >= p.len() {
        if j < t.len() {
            assert(ps.len() != ts.len());
        } else {
            assert(ps =~= ts);
        }
    } else {
        if j < t.len() {
            lemma_glob_from_literal(p, t, i + 1, j + 1);
            if p[i] == t[j] && p.subrange(i + 1, p.len() as int) == t.subrange(j + 1, t.len() as int) {
                assert(ps =~= seq![p[i]] + p.subrange(i + 1, p.len() as int));
                assert(ts =~= seq![t[j]] + t.subrange(j + 1, t.len() as int));
            }
            if ps == ts {
                assert(ps[0] == ts[0]);
                assert(p.subrange(i + 1, p.len() as int) =~= ps.drop_first());
                assert(t.subrange(j + 1, t.len() as int) =~= ts.drop_first());
            }
        } else {
            assert(ps.len() != ts.len());
        }
    }
}

proof fn lemma_glob_star_from(t: Seq<char>, j: int)
    requires
        0 <= j <= t.len(),
    ensures
        glob_from(seq!['*'], t, 0, j),
    decreases t.len() - j,
{
    if j < t.len() {
        lemma_glob_star_from(t, j + 1);
    }
    assert(glob_from(seq!['*'], t, 1, t.len() as int));
}

/// A pattern without `*` matches exactly the one text equal to it, and
/// the pattern `*` matches every text.
pub proof fn lemma_glob_literal_and_star(p: Seq<char>, t: Seq<char>)
    ensures
        (forall|k: int| 0 <= k < p.len() ==> p[k] != '*') ==> (glob(p, t) <==> p == t),
        glob(seq!['*'], t),
{
    if forall|k: int| 0 <= k < p.len() ==> p[k] != '*' {
        lemma_glob_from_literal(p, t, 0, 0);
        assert(p.subrange(0, p.len() as int) =~= p);
        assert(t.subrange(0, t.len() as int) =~= t);
    }
    lemma_glob_star_from(t, 0);
}

/// Glob matching, comparing lowercased forms when `insensitive`.
pub open spec fn glob_case(p: Seq<char>, t: Seq<char>, insensitive: bool) -> bool {
    if insensitive {
        glob(lowercase(p), lowercase(t))
    } else {
        glob(p, t)
    }
}

/// The strings a `fromTo` pattern is tried against for one endpoint:
/// none without a reference, else the reference and, with a pad number,
/// `reference-number`.
pub open spec fn spec_candidates(e: EndpointView) -> Seq<Seq<char>> {
    match e.reference {
        None => Seq::empty(),
        Some(r) => match e.number {
            Some(n) => seq![r, r + "-"@ + n],
            None => seq![r],
        },
    }
}

pub open spec fn any_glob(p: Seq<char>, cands: Seq<Seq<char>>, insensitive: bool) -> bool {
    exists|k: int| 0 <= k < cands.len() && glob_case(p, #[trigger] cands[k], insensitive)
}

pub open spec fn spec_from_to(a: Seq<char>, b: Seq<char>, from: EndpointView, to: EndpointView) -> bool {
    any_glob(a, spec_candidates(from), true) && any_glob(b, spec_candidates(to), true)
}

/// `name` without `suf` at its end, if it ends with `suf`.
pub open spec fn strip_suffix(name: Seq<char>, suf: Seq<char>) -> Option<Seq<char>> {
    if suf.len() <= name.len() && name.subrange(name.len() - suf.len(), name.len() as int) == suf {
        Some(name.subrange(0, name.len() - suf.len()))
    } else {
        None
    }
}

/// `name` without the first of the suffixes `_P`, `_N`, `+`, `-` it ends with.
pub open spec fn spec_strip_diff_pair_suffix(name: Seq<char>) -> Option<Seq<char>> {
    match strip_suffix(name, seq!['_', 'P']) {
        Some(b) => Some(b),
        None => match strip_suffix(name, seq!['_', 'N']) {
            Some(b) => Some(b),
            None => match strip_suffix(name, seq!['+']) {
                Some(b) => Some(b),
                None => strip_suffix(name, seq!['-']),
            },
        },
    }
}

/// The diff-pair base name: only when both the net name and a partner net
/// are known.
/// A diff-pair member's base name is its name without the `_P`, `_N`, `+`
/// or `-` it ends with; so, with a partner known, `inDiffPair` tests the
/// pattern against that base name, for the `_N` member as for the `_P`.
pub proof fn lemma_diff_pair_base(x: Seq<char>, f: FactsView, v: Seq<char>)
    ensures
        spec_strip_diff_pair_suffix(x + seq!['_', 'P']) == Some(x),
        spec_strip_diff_pair_suffix(x + seq!['_', 'N']) == Some(x),
        spec_strip_diff_pair_suffix(x + seq!['+']) == Some(x),
        spec_strip_diff_pair_suffix(x + seq!['-']) == Some(x),
        f.partner is Some && (f.net_name == Some(x + seq!['_', 'P']) || f.net_name == Some(x + seq!['_', 'N'])
            || f.net_name == Some(x + seq!['+']) || f.net_name == Some(x + seq!['-'])) ==> spec_diff_pair_base_name(f)
            == Some(x) && spec_eval_predicate(PredicateView::InDiffPair(v), f) == glob(v, x),
{
    let p = x + seq!['_', 'P'];
    let n = x + seq!['_', 'N'];
    let a = x + seq!['+'];
    let m = x + seq!['-'];
    assert(p.subrange(p.len() - 2, p.len() as int) =~= seq!['_', 'P']);
    assert(p.subrange(0, p.len() - 2) =~= x);
    assert(n.subrange(n.len() - 2, n.len() as int) =~= seq!['_', 'N']);
    assert(n.subrange(0, n.len() - 2) =~= x);
    assert(n.subrange(n.len() - 2, n.len() as int) != seq!['_', 'P']) by {
        assert(n.subrange(n.len() - 2, n.len() as int)[1] == 'N');
    }
    assert(a.subrange(a.len() - 1, a.len() as int) =~= seq!['+']);
    assert(a.subrange(0, a.len() - 1) =~= x);
    if a.len() >= 2 {
        assert(a.subrange(a.len() - 2, a.len() as int)[1] == '+');
        assert(a.subrange(a.len() - 2, a.len() as int) != seq!['_', 'P']);
        assert(a.subrange(a.len() - 2, a.len() as int) != seq!['_', 'N']);
    }
    assert(m.subrange(m.len() - 1, m.len() as int) =~= seq!['-']);
    assert(m.subrange(0, m.len() - 1) =~= x);
    if m.len() >= 2 {
        assert(m.subrange(m.len() - 2, m.len() as int)[1] == '-');
        assert(m.subrange(m.len() - 2, m.len() as int) != seq!['_', 'P']);
        assert(m.subrange(m.len() - 2, m.len() as int) != seq!['_', 'N']);
    }
    assert(m.subrange(m.len() - 1, m.len() as int) != seq!['+']) by {
        assert(m.subrange(m.len() - 1, m.len() as int)[0] == '-');
    }
}

pub open spec fn spec_diff_pair_base_name(f: FactsView) -> Option<Seq<char>> {
    match (f.net_name, f.partner) {
        (Some(name), Some(_)) => spec_strip_diff_pair_suffix(name),
        _ => None,
    }
}

pub open spec fn spec_eval_predicate(p: PredicateView, f: FactsView) -> bool {
    match p {
        PredicateView::NetClassEq(v) => f.net_class == Some(v),
        PredicateView::NetClassNeq(v) => f.net_class != Some(v),
        PredicateView::InDiffPair(v) => match spec_diff_pair_base_name(f) {
            Some(base) => glob(v, base),
            None => false,
        },
        PredicateView::IntersectsArea(v) => any_glob(v, f.areas, false),
        PredicateView::InsideArea(v) => any_glob(v, f.areas, false),
        PredicateView::FromTo(a, b) => match f.endpoints {
            Some((e0, e1)) => spec_from_to(a, b, e0, e1) || spec_from_to(a, b, e1, e0),
            None => false,
        },
    }
}

pub open spec fn spec_eval(e: ExprView, f: FactsView) -> bool
    decreases e,
{
    match e {
        ExprView::Pred(_, p) => spec_eval_predicate(p, f),
        ExprView::Not(inner) => !spec_eval(*inner, f),
        ExprView::And(a, b) => spec_eval(*a, f) && spec_eval(*b, f),
        ExprView::Or(a, b) => spec_eval(*a, f) || spec_eval(*b, f),
    }
}

/// Evaluation is compositional: `&&`, `||` and `!` combine their operands
/// values, a predicate takes its own value whatever its subject, and a
/// `fromTo` with no known endpoints is false.
pub proof fn lemma_eval_compositional(l: ExprView, r: ExprView, subject: Seq<char>, p: PredicateView, f: FactsView)
    ensures
        spec_eval(ExprView::And(Box::new(l), Box::new(r)), f) == (spec_eval(l, f) && spec_eval(r, f)),
        spec_eval(ExprView::Or(Box::new(l), Box::new(r)), f) == (spec_eval(l, f) || spec_eval(r, f)),
        spec_eval(ExprView::Not(Box::new(l)), f) == !spec_eval(l, f),
        spec_eval(ExprView::Pred(subject, p), f) == spec_eval_predicate(p, f),
        p is FromTo && f.endpoints is None ==> !spec_eval_predicate(p, f),
{
}

/// A condition holds when it parses and evaluates to true; one that does
/// not parse never holds.
pub open spec fn spec_condition_matches(text: Seq<char>, f: FactsView) -> bool {
    match spec_parse_condition(text) {
        Ok(e) => spec_eval(e, f),
        Err(_) => false,
    }
}

pub open spec fn rule_applies(r: RuleView, f: FactsView) -> bool {
    match r.condition {
        None => true,
        Some(c) => spec_condition_matches(c, f),
    }
}

/// The index of the last of the first `n` constraints with this kind.
pub open spec fn last_kind(cs: Seq<ConstraintView>, kind: Seq<char>, n: int) -> Option<int>
    decreases n,
{
    if n <= 0 {
        None
    } else if cs[n - 1].kind == kind {
        Some(n - 1)
    } else {
        last_kind(cs, kind, n - 1)
    }
}

/// Among the first `n` rules, the last one that applies and has a
/// constraint of this kind, with the index of its last such constraint.
pub open spec fn resolve_upto(rules: Seq<RuleView>, f: FactsView, kind: Seq<char>, n: int) -> Option<
    (int, int),
>
    decreases n,
{
    if n <= 0 {
        None
    } else {
        let r = rules[n - 1];
        match last_kind(r.constraints, kind, r.constraints.len() as int) {
            Some(c) => if rule_applies(r, f) {
                Some((n - 1, c))
            } else {
                resolve_upto(rules, f, kind, n - 1)
            },
            None => resolve_upto(rules, f, kind, n - 1),
        }
    }
}

pub open spec fn rules_view(rules: Seq<Rule>) -> Seq<RuleView> {
    rules.map_values(|r: Rule| r@)
}

proof fn lemma_last_kind_bounds(cs: Seq<ConstraintView>, kind: Seq<char>, n: int)
    requires
        n <= cs.len(),
    ensures
        last_kind(cs, kind, n) matches Some(c) ==> 0 <= c < n && cs[c].kind == kind,
    decreases n,
{
    if n > 0 && cs[n - 1].kind != kind {
        lemma_last_kind_bounds(cs, kind, n - 1);
    }
}

proof fn lemma_resolve_bounds(rules: Seq<RuleView>, f: FactsView, kind: Seq<char>, n: int)
    requires
        n <= rules.len(),
    ensures
        resolve_upto(rules, f, kind, n) matches Some((i, c)) ==> 0 <= i < n && 0 <= c
            < rules[i].constraints.len() && rules[i].constraints[c].kind == kind,
    decreases n,
{
    if n > 0 {
        let r = rules[n - 1];
        lemma_last_kind_bounds(r.constraints, kind, r.constraints.len() as int);
        lemma_resolve_bounds(rules, f, kind, n - 1);
    }
}

/// A resolved rule and constraint index lie within the rules, and the
/// constraint has the requested kind.
pub proof fn lemma_resolve_bounds_pub(rules: Seq<RuleView>, f: FactsView, kind: Seq<char>)
    ensures
        resolve_upto(rules, f, kind, rules.len() as int) matches Some((i, c)) ==> 0 <= i
            < rules.len() && 0 <= c < rules[i].constraints.len() && rules[i].constraints[c].kind
            == kind,
{
    lemma_resolve_bounds(rules, f, kind, rules.len() as int);
}

/// Whether `v` ends with `suf`.
fn ends_with(v: &Vec<char>, suf: &Vec<char>) -> (r: bool)
    ensures
        r == (suf@.len() <= v@.len() && v@.subrange(v@.len() - suf@.len(), v@.len() as int)
            == suf@),
{
    if suf.len() > v.len() {
        return false;
    }
    let vl = v.len();
    let off = vl - suf.len();
    let mut k: usize = 0;
    while k < suf.len()
        invariant
            off + suf@.len() == v@.len(),
            vl == v@.len(),
            0 <= k <= suf@.len(),
            forall|m: int| 0 <= m < k ==> v@[off + m] == suf@[m],
        decreases suf@.len() - k,
    {
        if v[off + k] != suf[k] {
            proof {
                assert(v@.subrange(off as int, v@.len() as int)[k as int] != suf@[k as int]);
            }
            return false;
        }
        k += 1;
    }
    proof {
        assert(v@.subrange(off as int, v@.len() as int) =~= suf@);
    }
    true
}

pub(crate) fn strip_one(v: &Vec<char>, suf: &Vec<char>) -> (r: Option<String>)
    ensures
        match (r, strip_suffix(v@, suf@)) {
            (Some(s), Some(b)) => s@ == b,
            (None, None) => true,
            _ => false,
        },
{
    if ends_with(v, suf) {
        Some(crate::text::string_from(v, 0, v.len() - suf.len()))
    } else {
        None
    }
}

fn strip_diff_pair_suffix(name: &str) -> (r: Option<String>)
    ensures
        match (r, spec_strip_diff_pair_suffix(name@)) {
            (Some(s), Some(b)) => s@ == b,
            (None, None) => true,
            _ => false,
        },
{
    let v = chars_of(name);
    let sp = vec!['_', 'P'];
    let sn = vec!['_', 'N'];
    let plus = vec!['+'];
    let minus = vec!['-'];
    proof {
        assert(sp@ =~= seq!['_', 'P']);
        assert(sn@ =~= seq!['_', 'N']);
        assert(plus@ =~= seq!['+']);
        assert(minus@ =~= seq!['-']);
    }
    match strip_one(&v, &sp) {
        Some(b) => return Some(b),
        None => {},
    }
    match strip_one(&v, &sn) {
        Some(b) => return Some(b),
        None => {},
    }
    match strip_one(&v, &plus) {
        Some(b) => return Some(b),
        None => {},
    }
    strip_one(&v, &minus)
}

fn diff_pair_base_name(facts: &ItemFacts) -> (r: Option<String>)
    ensures
        match (r, spec_diff_pair_base_name(facts@)) {
            (Some(s), Some(b)) => s@ == b,
            (None, None) => true,
            _ => false,
        },
{
    match (facts.net_name, facts.diff_pair_partner_net_name) {
        (Some(name), Some(_)) => strip_diff_pair_suffix(name),
        _ => None,
    }
}

/// Whether `p` matches `t` as a `*`-glob: a table over suffixes, filled
/// from the end of the pattern.
fn glob_chars(p: &Vec<char>, t: &Vec<char>) -> (r: bool)
    ensures
        r == glob(p@, t@),
{
    let m = t.len();
    let mut next: Vec<bool> = Vec::new();
    let mut j: usize = 0;
    while j < m
        invariant
            m == t@.len(),
            j <= m,
            next@.len() == j,
            forall|k: int| 0 <= k < j ==> next@[k] == glob_from(p@, t@, p@.len() as int, k),
        decreases m - j,
    {
        next.push(false);
        j += 1;
    }
    next.push(true);
    let mut i = p.len();
    while i > 0
        invariant
            m == t@.len(),
            i <= p@.len(),
            next@.len() == m + 1,
            forall|k: int| 0 <= k <= m ==> next@[k] == glob_from(p@, t@, i as int, k),
        decreases i,
    {
        i -= 1;
        let star = p[i] == '*';
        let mut cur: Vec<bool> = Vec::new();
        let mut z: usize = 0;
        while z < next.len()
            invariant
                cur@.len() == z,
                z <= next@.len(),
            decreases next@.len() - z,
        {
            cur.push(false);
            z += 1;
        }
        let mut j = cur.len();
        while j > 0
            invariant
                m == t@.len(),
                i < p@.len(),
                star == (p@[i as int] == '*'),
                next@.len() == m + 1,
                cur@.len() == m + 1,
                j <= m + 1,
                forall|k: int| 0 <= k <= m ==> next@[k] == glob_from(p@, t@, i + 1, k),
                forall|k: int| j <= k <= m ==> cur@[k] == glob_from(p@, t@, i as int, k),
            decreases j,
        {
            j -= 1;
            let v = if star {
                next[j] || (j < m && cur[j + 1])
            } else {
                j < m && p[i] == t[j] && next[j + 1]
            };
            cur.set(j, v);
        }
        next = cur;
    }
    next[0]
}

/// Whether a pattern match respects letter case.
#[derive(Debug, Clone, Copy, PartialEq, Eq)]
pub enum Case {
    Sensitive,
    Insensitive,
}

/// Matches `pattern` (where each `*` matches any run of characters,
/// including none) against `text`; case-insensitively compares the
/// lowercased forms.
pub fn glob_match(pattern: &str, text: &str, case: Case) -> (r: bool)
    ensures
        r == glob_case(pattern@, text@, case == Case::Insensitive),
{
    match case {
        Case::Sensitive => glob_chars(&chars_of(pattern), &chars_of(text)),
        Case::Insensitive => {
            let p = to_lowercase(pattern);
            let t = to_lowercase(text);
            glob_chars(&chars_of(p.as_str()), &chars_of(t.as_str()))
        },
    }
}

impl<'a> EndpointFacts<'a> {
    fn candidates(self) -> (r: Vec<String>)
        ensures
            crate::kicad::dru::strings_view(r@) == spec_candidates(self@),
    {
        let reference = match self.reference {
            Some(r) => r,
            None => {
                let v: Vec<String> = Vec::new();
                proof {
                    assert(crate::kicad::dru::strings_view(v@) =~= Seq::<Seq<char>>::empty());
                }
                return v;
            },
        };
        let mut candidates: Vec<String> = Vec::new();
        candidates.push(owned(reference));
        if let Some(number) = self.number {
            let mut c = owned(reference);
            push_str(&mut c, "-");
            push_str(&mut c, number);
            candidates.push(c);
        }
        proof {
            assert(crate::kicad::dru::strings_view(candidates@) =~= spec_candidates(self@));
        }
        candidates
    }
}

fn matches_any(pattern: &str, candidates: &Vec<String>) -> (r: bool)
    ensures
        r == any_glob(pattern@, crate::kicad::dru::strings_view(candidates@), true),
{
    let ghost cv = crate::kicad::dru::strings_view(candidates@);
    let mut k: usize = 0;
    while k < candidates.len()
        invariant
            cv == crate::kicad::dru::strings_view(candidates@),
            k <= candidates@.len(),
            forall|m: int| 0 <= m < k ==> !glob_case(pattern@, #[trigger] cv[m], true),
        decreases candidates@.len() - k,
    {
        if glob_match(pattern, candidates[k].as_str(), Case::Insensitive) {
            proof {
                assert(glob_case(pattern@, cv[k as int], true));
            }
            return true;
        }
        k += 1;
    }
    false
}

fn from_to_matches(a: &str, b: &str, from: EndpointFacts, to: EndpointFacts) -> (r: bool)
    ensures
        r == spec_from_to(a@, b@, from@, to@),
{
    let from_candidates = from.candidates();
    let to_candidates = to.candidates();
    matches_any(a, &from_candidates) && matches_any(b, &to_candidates)
}

fn any_area(pattern: &str, areas: &[&str]) -> (r: bool)
    ensures
        r == any_glob(pattern@, areas@.map_values(|s: &str| s@), false),
{
    let ghost av = areas@.map_values(|s: &str| s@);
    let mut k: usize = 0;
    while k < areas.len()
        invariant
            av == areas@.map_values(|s: &str| s@),
            k <= areas@.len(),
            forall|m: int| 0 <= m < k ==> !glob_case(pattern@, #[trigger] av[m], false),
        decreases areas@.len() - k,
    {
        if glob_match(pattern, areas[k], Case::Sensitive) {
            proof {
                assert(glob_case(pattern@, av[k as int], false));
            }
            return true;
        }
        k += 1;
    }
    false
}

fn opt_str_eq(o: Option<&str>, s: &str) -> (r: bool)
    ensures
        r == (opt_str_view(o) == Some(s@)),
{
    match o {
        Some(x) => str_eq(x, s),
        None => false,
    }
}

pub fn eval_predicate(predicate: &Predicate, facts: &ItemFacts) -> (r: bool)
    ensures
        r == spec_eval_predicate(predicate@, facts@),
{
    match predicate {
        Predicate::NetClassEq(pattern) => opt_str_eq(facts.net_class, pattern.as_str()),
        Predicate::NetClassNeq(pattern) => !opt_str_eq(facts.net_class, pattern.as_str()),
        Predicate::InDiffPair(pattern) => match diff_pair_base_name(facts) {
            Some(base) => glob_match(pattern.as_str(), base.as_str(), Case::Sensitive),
            None => false,
        },
        Predicate::IntersectsArea(pattern) => any_area(pattern.as_str(), facts.areas),
        Predicate::InsideArea(pattern) => any_area(pattern.as_str(), facts.areas),
        Predicate::FromTo(a, b) => match facts.connection_endpoints {
            Some(eps) => {
                let e0 = eps[0];
                let e1 = eps[1];
                from_to_matches(a.as_str(), b.as_str(), e0, e1) || from_to_matches(
                    a.as_str(),
                    b.as_str(),
                    e1,
                    e0,
                )
            },
            None => false,
        },
    }
}

/// Evaluates `expr` against `facts`. A predicate whose fact is missing
/// (e.g. `fromTo` with no known endpoints) is false rather than an error.
pub fn eval(expr: &Expr, facts: &ItemFacts) -> (r: bool)
    ensures
        r == spec_eval(expr@, facts@),
    decreases expr,
{
    match expr {
        Expr::Predicate { predicate, .. } => eval_predicate(predicate, facts),
        Expr::Not(inner) => !eval(inner, facts),
        Expr::And(lhs, rhs) => eval(lhs, facts) && eval(rhs, facts),
        Expr::Or(lhs, rhs) => eval(lhs, facts) || eval(rhs, facts),
    }
}

/// A condition that does not parse is non-matching: a rule this parser
/// cannot understand never silently becomes unconditional.
fn condition_matches(condition_text: &str, facts: &ItemFacts) -> (r: bool)
    ensures
        r == spec_condition_matches(condition_text@, facts@),
{
    match parse_condition(condition_text) {
        Ok(expr) => eval(&expr, facts),
        Err(_) => false,
    }
}

fn last_kind_index(rule: &Rule, kind: &str) -> (r: Option<usize>)
    ensures
        r matches Some(k) ==> k < rule.constraints@.len() && last_kind(
            rule@.constraints,
            kind@,
            rule@.constraints.len() as int,
        ) == Some(k as int),
        r is None ==> last_kind(rule@.constraints, kind@, rule@.constraints.len() as int) is None,
{
    let ghost cv = rule@.constraints;
    let mut k = rule.constraints.len();
    while k > 0
        invariant
            k <= rule.constraints@.len(),
            cv == rule@.constraints,
            cv.len() == rule.constraints@.len(),
            last_kind(cv, kind@, cv.len() as int) == last_kind(cv, kind@, k as int),
        decreases k,
    {
        if str_eq(rule.constraints[k - 1].kind.as_str(), kind) {
            return Some(k - 1);
        }
        k -= 1;
    }
    None
}

/// For `kind` (e.g. `"track_width"`), the last-declared rule whose
/// condition matches `facts` and which has a constraint of that kind,
/// with its last constraint of that kind; `None` when no such rule exists.
pub fn resolve_constraint<'a>(rules: &'a [Rule], facts: &ItemFacts, kind: &str) -> (r: Option<
    (&'a Rule, &'a Constraint),
>)
    ensures
        match (r, resolve_upto(rules_view(rules@), facts@, kind@, rules@.len() as int)) {
            (Some((rule, c)), Some((i, k))) => *rule == rules@[i] && *c
                == rules@[i].constraints@[k],
            (None, None) => true,
            _ => false,
        },
{
    let ghost rv = rules_view(rules@);
    let mut n = rules.len();
    while n > 0
        invariant
            n <= rules@.len(),
            rv == rules_view(rules@),
            resolve_upto(rv, facts@, kind@, rules@.len() as int) == resolve_upto(
                rv,
                facts@,
                kind@,
                n as int,
            ),
        decreases n,
    {
        let rule = &rules[n - 1];
        let found = last_kind_index(rule, kind);
        proof {
            assert(rv[n - 1] == rule@);
        }
        if let Some(k) = found {
            let applies = match &rule.condition {
                None => true,
                Some(c) => {
                    let m = condition_matches(c.as_str(), facts);
                    proof {
                        assert(rule@.condition == Some(c@));
                    }
                    m
                },
            };
            if applies {
                proof {
                    lemma_resolve_bounds(rv, facts@, kind@, n as int);
                    assert(rule_applies(rv[n - 1], facts@));
                    assert(resolve_upto(rv, facts@, kind@, n as int) == Some((n - 1, k as int)));
                }
                return Some((rule, &rule.constraints[k]));
            }
        }
        n -= 1;
    }
    None
}

} // verus!
