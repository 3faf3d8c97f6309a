//! A generic S-expression parser: lists, quoted strings (with backslash
//! escapes), and bare atoms. KiCad-specific meaning is attached elsewhere.

use vstd::prelude::*;

use crate::text::{char_is_whitespace, chars_of, is_whitespace, owned, push_char, string_from};

verus! {

#[derive(Debug, PartialEq)]
pub enum Sexpr {
    List(Vec<Sexpr>),
    /// A bare symbol or a de-escaped quoted string.
    Atom(String),
}

/// The mathematical value of an S-expression.
pub enum SexprView {
    List(Seq<SexprView>),
    Atom(Seq<char>),
}

impl View for Sexpr {
    type V = SexprView;

    open spec fn view(&self) -> SexprView
        decreases self,
    {
        match self {
            Sexpr::List(items) => SexprView::List(
                Seq::new(
                    items@.len(),
                    |i: int|
                        if 0 <= i < items@.len() {
                            items@[i]@
                        } else {
                            SexprView::Atom(Seq::empty())
                        },
                ),
            ),
            Sexpr::Atom(s) => SexprView::Atom(s@),
        }
    }
}

/// A syntax error, with a message saying what went wrong.
#[derive(Debug)]
pub struct ParseError(pub String);

/// The first position at or after `pos` that is not whitespace.
pub open spec fn ws_end(s: Seq<char>, pos: int) -> int
    decreases s.len() - pos,
{
    if 0 <= pos < s.len() && char_is_whitespace(s[pos]) {
        ws_end(s, pos + 1)
    } else {
        pos
    }
}

/// The end of the bare atom starting at `pos`: the first whitespace,
/// parenthesis, or the end of the input.
pub open spec fn atom_end(s: Seq<char>, pos: int) -> int
    decreases s.len() - pos,
{
    if 0 <= pos < s.len() && !char_is_whitespace(s[pos]) && s[pos] != '(' && s[pos] != ')' {
        atom_end(s, pos + 1)
    } else {
        pos
    }
}

/// The rest of a quoted string whose opening quote precedes `pos`: a
/// backslash takes the next character literally.
pub open spec fn quoted(s: Seq<char>, pos: int, acc: Seq<char>) -> Result<
    (Seq<char>, int),
    Seq<char>,
>
    decreases s.len() - pos,
{
    if pos < 0 || pos >= s.len() {
        Err("unterminated string"@)
    } else if s[pos] == '"' {
        Ok((acc, pos + 1))
    } else if s[pos] == '\\' {
        if pos + 1 >= s.len() {
            Err("unterminated escape in string"@)
        } else {
            quoted(s, pos + 2, acc.push(s[pos + 1]))
        }
    } else {
        quoted(s, pos + 1, acc.push(s[pos]))
    }
}

/// The expression starting at or after `pos` (after whitespace) and the
/// position just past it.
pub open spec fn p_expr(s: Seq<char>, pos: int) -> Result<(SexprView, int), Seq<char>>
    decreases s.len() - pos, 0int,
{
    let q = ws_end(s, pos);
    if pos < 0 || pos > s.len() || q >= s.len() {
        Err("unexpected end of input"@)
    } else if s[q] == '(' {
        proof {
            lemma_ws_end(s, pos);
        }
        match p_items(s, q + 1) {
            Ok((items, e)) => Ok((SexprView::List(items), e)),
            Err(m) => Err(m),
        }
    } else if s[q] == '"' {
        match quoted(s, q + 1, Seq::empty()) {
            Ok((t, e)) => Ok((SexprView::Atom(t), e)),
            Err(m) => Err(m),
        }
    } else {
        Ok((SexprView::Atom(s.subrange(q, atom_end(s, q))), atom_end(s, q)))
    }
}

/// The items of a list whose opening parenthesis precedes `pos`, up to and
/// including its closing parenthesis.
pub open spec fn p_items(s: Seq<char>, pos: int) -> Result<(Seq<SexprView>, int), Seq<char>>
    decreases s.len() - pos, 1int,
{
    let q = ws_end(s, pos);
    if pos < 0 || pos > s.len() || q >= s.len() {
        Err("unterminated list"@)
    } else if s[q] == ')' {
        Ok((Seq::empty(), q + 1))
    } else {
        proof {
            lemma_ws_end(s, pos);
        }
        match p_expr(s, q) {
            Err(m) => Err(m),
            Ok((e, q2)) => if q2 <= q || q2 > s.len() {
                Err("unterminated list"@)
            } else {
                match p_items(s, q2) {
                    Ok((rest, q3)) => Ok((seq![e] + rest, q3)),
                    Err(m) => Err(m),
                }
            },
        }
    }
}

/// Exactly one expression, with only whitespace after it.
pub open spec fn spec_parse(s: Seq<char>) -> Result<SexprView, Seq<char>> {
    match p_expr(s, 0) {
        Err(m) => Err(m),
        Ok((e, q)) => if ws_end(s, q) < s.len() {
            Err("trailing content after root expression"@)
        } else {
            Ok(e)
        },
    }
}

/// A sequence of expressions separated by whitespace, from `pos` on.
pub open spec fn p_all(s: Seq<char>, pos: int) -> Result<Seq<SexprView>, Seq<char>>
    decreases s.len() - pos,
{
    let q = ws_end(s, pos);
    if pos < 0 || pos > s.len() || q >= s.len() {
        Ok(Seq::empty())
    } else {
        proof {
            lemma_ws_end(s, pos);
        }
        match p_expr(s, q) {
            Err(m) => Err(m),
            Ok((e, q2)) => if q2 <= q || q2 > s.len() {
                Err("unexpected ')' at top level"@)
            } else {
                match p_all(s, q2) {
                    Ok(rest) => Ok(seq![e] + rest),
                    Err(m) => Err(m),
                }
            },
        }
    }
}

pub proof fn lemma_ws_end(s: Seq<char>, pos: int)
    requires
        0 <= pos <= s.len(),
    ensures
        pos <= ws_end(s, pos) <= s.len(),
        ws_end(s, pos) < s.len() ==> !char_is_whitespace(s[ws_end(s, pos)]),
    decreases s.len() - pos,
{
    if pos < s.len() && char_is_whitespace(s[pos]) {
        lemma_ws_end(s, pos + 1);
    }
}

proof fn lemma_atom_end(s: Seq<char>, pos: int)
    requires
        0 <= pos <= s.len(),
    ensures
        pos <= atom_end(s, pos) <= s.len(),
    decreases s.len() - pos,
{
    if pos < s.len() && !char_is_whitespace(s[pos]) && s[pos] != '(' && s[pos] != ')' {
        lemma_atom_end(s, pos + 1);
    }
}

proof fn lemma_quoted(s: Seq<char>, pos: int, acc: Seq<char>)
    requires
        0 <= pos,
    ensures
        quoted(s, pos, acc) matches Ok((_, e)) ==> pos < e <= s.len(),
    decreases s.len() - pos,
{
    if 0 <= pos < s.len() && s[pos] != '"' {
        if s[pos] == '\\' {
            if pos + 1 < s.len() {
                lemma_quoted(s, pos + 2, acc.push(s[pos + 1]));
            }
        } else {
            lemma_quoted(s, pos + 1, acc.push(s[pos]));
        }
    }
}

proof fn lemma_p_expr(s: Seq<char>, pos: int)
    requires
        0 <= pos <= s.len(),
    ensures
        p_expr(s, pos) matches Ok((_, e)) ==> ws_end(s, pos) <= e <= s.len() && (e
            == ws_end(s, pos) ==> s[ws_end(s, pos)] == ')'),
    decreases s.len() - pos, 0int,
{
    lemma_ws_end(s, pos);
    let q = ws_end(s, pos);
    if q < s.len() {
        if s[q] == '(' {
            lemma_p_items(s, q + 1);
        } else if s[q] == '"' {
            lemma_quoted(s, q + 1, Seq::empty());
        } else {
            lemma_atom_end(s, q);
            if s[q] != ')' {
                assert(atom_end(s, q) == atom_end(s, q + 1));
                lemma_atom_end(s, q + 1);
            }
        }
    }
}

proof fn lemma_p_items(s: Seq<char>, pos: int)
    requires
        0 <= pos <= s.len(),
    ensures
        p_items(s, pos) matches Ok((_, e)) ==> pos < e <= s.len(),
    decreases s.len() - pos, 1int,
{
    lemma_ws_end(s, pos);
    let q = ws_end(s, pos);
    if q < s.len() && s[q] != ')' {
        lemma_p_expr(s, q);
        if let Ok((_, q2)) = p_expr(s, q) {
            if q2 > q {
                lemma_p_items(s, q2);
            }
        }
    }
}

fn skip_whitespace(s: &Vec<char>, pos: usize) -> (r: usize)
    requires
        pos <= s@.len(),
    ensures
        r == ws_end(s@, pos as int),
        pos <= r <= s@.len(),
        r < s@.len() ==> !char_is_whitespace(s@[r as int]),
{
    proof {
        lemma_ws_end(s@, pos as int);
    }
    let mut i = pos;
    while i < s.len() && is_whitespace(s[i])
        invariant
            pos <= i <= s@.len(),
            ws_end(s@, i as int) == ws_end(s@, pos as int),
        decreases s@.len() - i,
    {
        i += 1;
    }
    i
}

fn parse_quoted(s: &Vec<char>, pos: usize) -> (r: Result<(Sexpr, usize), ParseError>)
    requires
        pos <= s@.len(),
    ensures
        match (r, quoted(s@, pos as int, Seq::empty())) {
            (Ok((e, p)), Ok((t, q))) => e@ == SexprView::Atom(t) && p == q,
            (Err(err), Err(m)) => err.0@ == m,
            _ => false,
        },
{
    let mut out = String::new();
    let mut i = pos;
    proof {
        assert(out@ =~= Seq::<char>::empty());
    }
    while i < s.len()
        invariant
            pos <= i <= s@.len(),
            quoted(s@, i as int, out@) == quoted(s@, pos as int, Seq::empty()),
        decreases s@.len() - i,
    {
        let c = s[i];
        if c == '"' {
            return Ok((Sexpr::Atom(out), i + 1));
        } else if c == '\\' {
            if i + 1 >= s.len() {
                return Err(ParseError(owned("unterminated escape in string")));
            }
            push_char(&mut out, s[i + 1]);
            i += 2;
        } else {
            push_char(&mut out, c);
            i += 1;
        }
    }
    Err(ParseError(owned("unterminated string")))
}

fn parse_bare_atom(s: &Vec<char>, pos: usize) -> (r: (Sexpr, usize))
    requires
        pos <= s@.len(),
    ensures
        r.0@ == SexprView::Atom(s@.subrange(pos as int, atom_end(s@, pos as int))),
        r.1 == atom_end(s@, pos as int),
{
    proof {
        lemma_atom_end(s@, pos as int);
    }
    let mut i = pos;
    while i < s.len() && !is_whitespace(s[i]) && s[i] != '(' && s[i] != ')'
        invariant
            pos <= i <= s@.len(),
            atom_end(s@, i as int) == atom_end(s@, pos as int),
        decreases s@.len() - i,
    {
        i += 1;
    }
    (Sexpr::Atom(string_from(s, pos, i)), i)
}

fn parse_expr(s: &Vec<char>, pos: usize) -> (r: Result<(Sexpr, usize), ParseError>)
    requires
        pos <= s@.len(),
    ensures
        match (r, p_expr(s@, pos as int)) {
            (Ok((e, p)), Ok((v, q))) => e@ == v && p == q,
            (Err(err), Err(m)) => err.0@ == m,
            _ => false,
        },
    decreases s@.len() - pos, 0int,
{
    let q = skip_whitespace(s, pos);
    if q >= s.len() {
        return Err(ParseError(owned("unexpected end of input")));
    }
    if s[q] == '(' {
        match parse_list(s, q + 1) {
            Ok((items, e)) => {
                let ghost iv = p_items(s@, q + 1);
                let res = Sexpr::List(items);
                proof {
                    assert(res@ == SexprView::List(iv->Ok_0.0)) by {
                        assert(res@ matches SexprView::List(w) && w =~= iv->Ok_0.0);
                    }
                }
                Ok((res, e))
            },
            Err(err) => Err(err),
        }
    } else if s[q] == '"' {
        parse_quoted(s, q + 1)
    } else {
        let (atom, e) = parse_bare_atom(s, q);
        Ok((atom, e))
    }
}

/// Parses list items from `pos` up to and including the closing
/// parenthesis.
fn parse_list(s: &Vec<char>, pos: usize) -> (r: Result<(Vec<Sexpr>, usize), ParseError>)
    requires
        pos <= s@.len(),
    ensures
        match (r, p_items(s@, pos as int)) {
            (Ok((items, p)), Ok((v, q))) => items@.map_values(|x: Sexpr| x@) == v && p == q,
            (Err(err), Err(m)) => err.0@ == m,
            _ => false,
        },
    decreases s@.len() - pos, 1int,
{
    let mut items: Vec<Sexpr> = Vec::new();
    let mut i = pos;
    loop
        invariant
            pos <= i <= s@.len(),
            match p_items(s@, pos as int) {
                Ok((v, e)) => p_items(s@, i as int) matches Ok((w, e2)) && e2 == e && v
                    == items@.map_values(|x: Sexpr| x@) + w,
                Err(m) => p_items(s@, i as int) == Err::<(Seq<SexprView>, int), Seq<char>>(m),
            },
        decreases s@.len() - i,
    {
        let q = skip_whitespace(s, i);
        if q >= s.len() {
            return Err(ParseError(owned("unterminated list")));
        }
        if s[q] == ')' {
            proof {
                assert(items@.map_values(|x: Sexpr| x@) + Seq::<SexprView>::empty() =~= items@.map_values(|x: Sexpr| x@));
            }
            return Ok((items, q + 1));
        }
        proof {
            lemma_p_expr(s@, q as int);
        }
        match parse_expr(s, q) {
            Ok((e, q2)) => {
                proof {
                    lemma_p_items(s@, q2 as int);
                    assert(q2 > q);
                    assert(p_items(s@, i as int) == (match p_items(s@, q2 as int) {
                        Ok((rest, q3)) => Ok((seq![e@] + rest, q3)),
                        Err(m) => Err::<(Seq<SexprView>, int), Seq<char>>(m),
                    }));
                    let ghost old_items = items@;
                    assert(old_items.push(e).map_values(|x: Sexpr| x@) =~= old_items.map_values(|x: Sexpr| x@) + seq![e@]);
                    match p_items(s@, q2 as int) {
                        Ok((rest, _)) => {
                            assert(seq![e@] + rest =~= seq![e@] + rest);
                            assert(old_items.map_values(|x: Sexpr| x@) + (seq![e@] + rest) =~= (old_items.map_values(|x: Sexpr| x@) + seq![e@]) + rest);
                        },
                        Err(_) => {},
                    }
                }
                items.push(e);
                i = q2;
            },
            Err(err) => return Err(err),
        }
    }
}

/// Parses a single top-level S-expression; trailing whitespace is
/// tolerated, anything else after it is an error.
pub fn parse(input: &str) -> (r: Result<Sexpr, ParseError>)
    ensures
        match (r, spec_parse(input@)) {
            (Ok(e), Ok(v)) => e@ == v,
            (Err(err), Err(m)) => err.0@ == m,
            _ => false,
        },
{
    let s = chars_of(input);
    let (expr, e) = parse_expr(&s, 0)?;
    proof {
        lemma_p_expr(s@, 0);
    }
    let q = skip_whitespace(&s, e);
    if q < s.len() {
        return Err(ParseError(owned("trailing content after root expression")));
    }
    Ok(expr)
}

/// Parses a sequence of top-level S-expressions (a `.kicad_dru` file has no
/// single enclosing list).
pub fn parse_all(input: &str) -> (r: Result<Vec<Sexpr>, ParseError>)
    ensures
        match (r, p_all(input@, 0)) {
            (Ok(es), Ok(vs)) => es@.map_values(|x: Sexpr| x@) == vs,
            (Err(err), Err(m)) => err.0@ == m,
            _ => false,
        },
{
    let s = chars_of(input);
    let mut out: Vec<Sexpr> = Vec::new();
    let mut i: usize = 0;
    loop
        invariant
            i <= s@.len(),
            s@ == input@,
            match p_all(s@, 0) {
                Ok(v) => p_all(s@, i as int) matches Ok(w) && v == out@.map_values(|x: Sexpr| x@) + w,
                Err(m) => p_all(s@, i as int) == Err::<Seq<SexprView>, Seq<char>>(m),
            },
        decreases s@.len() - i,
    {
        let q = skip_whitespace(&s, i);
        if q >= s.len() {
            proof {
                assert(out@.map_values(|x: Sexpr| x@) + Seq::<SexprView>::empty() =~= out@.map_values(|x: Sexpr| x@));
            }
            return Ok(out);
        }
        proof {
            lemma_p_expr(s@, q as int);
        }
        match parse_expr(&s, q) {
            Ok((e, q2)) => {
                if q2 <= q {
                    return Err(ParseError(owned("unexpected ')' at top level")));
                }
                proof {
                    assert(p_all(s@, i as int) == (match p_all(s@, q2 as int) {
                        Ok(rest) => Ok(seq![e@] + rest),
                        Err(m) => Err::<Seq<SexprView>, Seq<char>>(m),
                    }));
                    let ghost old_out = out@;
                    assert(old_out.push(e).map_values(|x: Sexpr| x@) =~= old_out.map_values(|x: Sexpr| x@) + seq![e@]);
                    match p_all(s@, q2 as int) {
                        Ok(rest) => {
                            assert(old_out.map_values(|x: Sexpr| x@) + (seq![e@] + rest) =~= (old_out.map_values(|x: Sexpr| x@) + seq![e@]) + rest);
                        },
                        Err(_) => {},
                    }
                }
                out.push(e);
                i = q2;
            },
            Err(err) => return Err(err),
        }
    }
}

/// The children of a list (empty for an atom).
pub open spec fn v_children(v: SexprView) -> Seq<SexprView> {
    match v {
        SexprView::List(items) => items,
        SexprView::Atom(_) => Seq::empty(),
    }
}

/// The text of an atom.
pub open spec fn v_as_atom(v: SexprView) -> Option<Seq<char>> {
    match v {
        SexprView::Atom(a) => Some(a),
        SexprView::List(_) => None,
    }
}

/// The atom at position `i` of a list (position 0 is its tag).
pub open spec fn v_atom(v: SexprView, i: int) -> Option<Seq<char>> {
    match v {
        SexprView::List(items) => if 0 <= i < items.len() {
            v_as_atom(items[i])
        } else {
            None
        },
        SexprView::Atom(_) => None,
    }
}

/// A list's tag: its first element, when that is an atom.
pub open spec fn v_head(v: SexprView) -> Option<Seq<char>> {
    v_atom(v, 0)
}

/// `i` is the first child of `v` tagged `name`.
pub open spec fn is_first_tagged(v: SexprView, name: Seq<char>, i: int) -> bool {
    &&& 0 <= i < v_children(v).len()
    &&& v_head(v_children(v)[i]) == Some(name)
    &&& forall|j: int| 0 <= j < i ==> v_head(#[trigger] v_children(v)[j]) != Some(name)
}

/// The first child of `v` tagged `name`.
pub open spec fn v_find(v: SexprView, name: Seq<char>) -> Option<SexprView> {
    if exists|i: int| is_first_tagged(v, name, i) {
        Some(v_children(v)[choose|i: int| is_first_tagged(v, name, i)])
    } else {
        None
    }
}

/// Every child of `v` tagged `name`, in document order.
pub open spec fn v_find_all(v: SexprView, name: Seq<char>) -> Seq<SexprView> {
    v_children(v).filter(|c: SexprView| v_head(c) == Some(name))
}

/// How a list's view relates to its elements' views.
pub proof fn lemma_view_children(e: &Sexpr)
    ensures
        match e {
            Sexpr::List(items) => {
                &&& e@ is List
                &&& v_children(e@).len() == items@.len()
                &&& forall|k: int| 0 <= k < items@.len() ==> #[trigger] v_children(e@)[k] == items@[k]@
            },
            Sexpr::Atom(a) => e@ == SexprView::Atom(a@),
        },
{
    match e {
        Sexpr::List(items) => {
            assert(e@ is List);
        },
        Sexpr::Atom(a) => {},
    }
}

pub proof fn lemma_first_tagged_unique(v: SexprView, name: Seq<char>, i: int)
    requires
        is_first_tagged(v, name, i),
    ensures
        v_find(v, name) == Some(v_children(v)[i]),
{
    let k = choose|k: int| is_first_tagged(v, name, k);
    assert(is_first_tagged(v, name, k));
    if k < i {
        assert(v_head(v_children(v)[k]) != Some(name));
    }
    if i < k {
        assert(v_head(v_children(v)[i]) != Some(name));
    }
}

impl Sexpr {
    pub fn as_list(&self) -> (r: Option<&[Sexpr]>)
        ensures
            match self {
                Sexpr::List(items) => r matches Some(sl) && sl@ == items@,
                Sexpr::Atom(_) => r.is_none(),
            },
    {
        match self {
            Sexpr::List(items) => Some(items.as_slice()),
            Sexpr::Atom(_) => None,
        }
    }

    pub fn as_atom(&self) -> (r: Option<&str>)
        ensures
            match r {
                Some(a) => v_as_atom(self@) == Some(a@),
                None => v_as_atom(self@).is_none(),
            },
    {
        match self {
            Sexpr::Atom(s) => Some(s.as_str()),
            Sexpr::List(_) => None,
        }
    }

    /// The atom at position `index` of this list (position 0 is the tag
    /// itself).
    pub fn atom(&self, index: usize) -> (r: Option<&str>)
        ensures
            match r {
                Some(a) => v_atom(self@, index as int) == Some(a@),
                None => v_atom(self@, index as int).is_none(),
            },
    {
        match self {
            Sexpr::List(items) => {
                if index < items.len() {
                    items[index].as_atom()
                } else {
                    None
                }
            },
            Sexpr::Atom(_) => None,
        }
    }

    /// For a list whose first element is a symbol, that symbol — the
    /// element's tag.
    pub fn head(&self) -> (r: Option<&str>)
        ensures
            match r {
                Some(a) => v_head(self@) == Some(a@),
                None => v_head(self@).is_none(),
            },
    {
        self.atom(0)
    }

    /// True iff this is a list tagged `name`.
    pub fn has_head(&self, name: &String) -> (r: bool)
        ensures
            r == (v_head(self@) == Some(name@)),
    {
        proof {
            lemma_view_children(self);
        }
        match self {
            Sexpr::List(items) => {
                if items.len() > 0 {
                    proof {
                        lemma_view_children(&items@[0]);
                    }
                }
            },
            _ => {},
        }
        match self {
            Sexpr::List(items) => {
                if items.len() > 0 {
                    match &items[0] {
                        Sexpr::Atom(a) => *a == *name,
                        Sexpr::List(_) => false,
                    }
                } else {
                    false
                }
            },
            Sexpr::Atom(_) => false,
        }
    }

    /// The first direct child list tagged `name`.
    pub fn find(&self, name: &str) -> (r: Option<&Sexpr>)
        ensures
            match r {
                Some(c) => v_find(self@, name@) == Some(c@),
                None => v_find(self@, name@).is_none(),
            },
    {
        let target = owned(name);
        proof {
            lemma_view_children(self);
        }
        match self {
            Sexpr::List(items) => {
                let mut i: usize = 0;
                while i < items.len()
                    invariant
                        0 <= i <= items@.len(),
                        v_children(self@).len() == items@.len(),
                        forall|k: int| 0 <= k < items@.len() ==> #[trigger] v_children(self@)[k] == items@[k]@,
                        target@ == name@,
                        forall|j: int| 0 <= j < i ==> v_head(#[trigger] v_children(self@)[j]) != Some(name@),
                    decreases items@.len() - i,
                {
                    assert(v_children(self@)[i as int] == items@[i as int]@);
                    if items[i].has_head(&target) {
                        proof {
                            lemma_first_tagged_unique(self@, name@, i as int);
                        }
                        return Some(&items[i]);
                    }
                    i += 1;
                }
                proof {
                    assert(!exists|k: int| is_first_tagged(self@, name@, k)) by {
                        if exists|k: int| is_first_tagged(self@, name@, k) {
                            let k = choose|k: int| is_first_tagged(self@, name@, k);
                            assert(v_head(v_children(self@)[k]) != Some(name@));
                        }
                    }
                }
                None
            },
            Sexpr::Atom(_) => None,
        }
    }

    /// All direct child lists tagged `name`, in document order.
    pub fn find_all(&self, name: &str) -> (r: Vec<&Sexpr>)
        ensures
            r@.map_values(|c: &Sexpr| c@) == v_find_all(self@, name@),
    {
        let target = owned(name);
        let mut out: Vec<&Sexpr> = Vec::new();
        proof {
            lemma_view_children(self);
        }
        match self {
            Sexpr::List(items) => {
                let ghost children = v_children(self@);
                let ghost pred = |c: SexprView| v_head(c) == Some(name@);
                let mut i: usize = 0;
                while i < items.len()
                    invariant
                        0 <= i <= items@.len(),
                        children == v_children(self@),
                        children.len() == items@.len(),
                        forall|k: int| 0 <= k < items@.len() ==> #[trigger] children[k] == items@[k]@,
                        pred == (|c: SexprView| v_head(c) == Some(name@)),
                        target@ == name@,
                        out@.map_values(|c: &Sexpr| c@) == children.subrange(0, i as int).filter(pred),
                    decreases items@.len() - i,
                {
                    proof {
                        reveal_with_fuel(Seq::<_>::filter, 1);
                        assert(children.subrange(0, i + 1).drop_last() =~= children.subrange(0, i as int));
                    }
                    let ghost before = out@;
                    if items[i].has_head(&target) {
                        out.push(&items[i]);
                        proof {
                            assert(out@.map_values(|c: &Sexpr| c@) =~= before.map_values(|c: &Sexpr| c@).push(items@[i as int]@));
                        }
                    }
                    i += 1;
                }
                proof {
                    assert(children.subrange(0, items@.len() as int) =~= children);
                }
            },
            Sexpr::Atom(_) => {
                proof {
                    assert(v_children(self@).filter(|c: SexprView| v_head(c) == Some(name@)) =~= Seq::<SexprView>::empty());
                }
            },
        }
        out
    }
}

/// An S-expression together with its exact text layout: each list item
/// carries the whitespace written before it, and each list the whitespace
/// before its closing parenthesis.
pub enum Layout {
    /// An atom written bare.
    Bare(Seq<char>),
    /// An atom written between double quotes, without escapes.
    Quoted(Seq<char>),
    List(Seq<(Seq<char>, Layout)>, Seq<char>),
}

/// `c` ends a bare atom.
pub open spec fn delim(c: char) -> bool {
    char_is_whitespace(c) || c == '(' || c == ')'
}

pub open spec fn all_ws(w: Seq<char>) -> bool {
    forall|i: int| 0 <= i < w.len() ==> char_is_whitespace(#[trigger] w[i])
}

/// `a` can be written bare: non-empty, no delimiter, not starting with a
/// quote.
pub open spec fn bare_ok(a: Seq<char>) -> bool {
    &&& a.len() > 0
    &&& a[0] != '"'
    &&& forall|i: int| 0 <= i < a.len() ==> !delim(#[trigger] a[i])
}

/// `a` can be written between quotes without escapes.
pub open spec fn quote_ok(a: Seq<char>) -> bool {
    forall|i: int| 0 <= i < a.len() ==> (#[trigger] a[i]) != '"' && a[i] != '\\'
}

/// The text of a layout, nested at most `n` lists deep.
pub open spec fn ltext(d: Layout, n: nat) -> Seq<char>
    decreases n, 1int, 0int,
{
    match d {
        Layout::Bare(a) => a,
        Layout::Quoted(a) => seq!['"'] + a + seq!['"'],
        Layout::List(items, tw) => seq!['('] + itext(items, items.len() as int, n) + tw + seq![')'],
    }
}

/// The text of the first `k` items of a list.
pub open spec fn itext(items: Seq<(Seq<char>, Layout)>, k: int, n: nat) -> Seq<char>
    decreases n, 0int, k,
{
    if k <= 0 || n == 0 || k > items.len() {
        Seq::empty()
    } else {
        itext(items, k - 1, n) + items[k - 1].0 + ltext(items[k - 1].1, (n - 1) as nat)
    }
}

/// The S-expression a layout denotes.
pub open spec fn lview(d: Layout, n: nat) -> SexprView
    decreases n, 1int, 0int,
{
    match d {
        Layout::Bare(a) => SexprView::Atom(a),
        Layout::Quoted(a) => SexprView::Atom(a),
        Layout::List(items, _) => SexprView::List(iview(items, items.len() as int, n)),
    }
}

pub open spec fn iview(items: Seq<(Seq<char>, Layout)>, k: int, n: nat) -> Seq<SexprView>
    decreases n, 0int, k,
{
    if k <= 0 || n == 0 || k > items.len() {
        Seq::empty()
    } else {
        iview(items, k - 1, n).push(lview(items[k - 1].1, (n - 1) as nat))
    }
}

/// A layout the reader reads back: bare atoms can be written bare, quoted
/// ones need no escapes, every gap is whitespace, items after the first
/// are separated by some, and lists nest at most `n` deep.
pub open spec fn lwf(d: Layout, n: nat) -> bool
    decreases n, 1int, 0int,
{
    match d {
        Layout::Bare(a) => bare_ok(a),
        Layout::Quoted(a) => quote_ok(a),
        Layout::List(items, tw) => n > 0 && all_ws(tw) && iwf(items, items.len() as int, n),
    }
}

pub open spec fn iwf(items: Seq<(Seq<char>, Layout)>, k: int, n: nat) -> bool
    decreases n, 0int, k,
{
    if k <= 0 || n == 0 || k > items.len() {
        true
    } else {
        &&& iwf(items, k - 1, n)
        &&& all_ws(items[k - 1].0)
        &&& (k - 1 > 0 ==> items[k - 1].0.len() > 0)
        &&& lwf(items[k - 1].1, (n - 1) as nat)
    }
}

proof fn lemma_ws_run(s: Seq<char>, p: int, w: Seq<char>)
    requires
        0 <= p,
        p + w.len() < s.len(),
        s.subrange(p, p + w.len()) == w,
        all_ws(w),
        !char_is_whitespace(s[p + w.len()]),
    ensures
        ws_end(s, p) == p + w.len(),
    decreases w.len(),
{
    if w.len() > 0 {
        assert(s[p] == w[0]);
        assert(s.subrange(p + 1, p + w.len()) =~= w.drop_first());
        lemma_ws_run(s, p + 1, w.drop_first());
    }
}

proof fn lemma_atom_run(s: Seq<char>, p: int, a: Seq<char>)
    requires
        0 <= p,
        p + a.len() <= s.len(),
        s.subrange(p, p + a.len()) == a,
        forall|i: int| 0 <= i < a.len() ==> !delim(#[trigger] a[i]),
        p + a.len() == s.len() || delim(s[p + a.len()]),
    ensures
        atom_end(s, p) == p + a.len(),
    decreases a.len(),
{
    if a.len() > 0 {
        assert(s[p] == a[0]);
        assert(!delim(a[0]));
        assert(s.subrange(p + 1, p + a.len()) =~= a.drop_first());
        lemma_atom_run(s, p + 1, a.drop_first());
    }
}

proof fn lemma_quoted_run(s: Seq<char>, p: int, a: Seq<char>, acc: Seq<char>)
    requires
        0 <= p,
        p + a.len() < s.len(),
        s.subrange(p, p + a.len()) == a,
        s[p + a.len()] == '"',
        quote_ok(a),
    ensures
        quoted(s, p, acc) == Ok::<(Seq<char>, int), Seq<char>>((acc + a, p + a.len() + 1)),
    decreases a.len(),
{
    if a.len() == 0 {
        assert(acc + a =~= acc);
    } else {
        assert(s[p] == a[0]);
        assert(s.subrange(p + 1, p + a.len()) =~= a.drop_first());
        lemma_quoted_run(s, p + 1, a.drop_first(), acc.push(a[0]));
        assert(acc.push(a[0]) + a.drop_first() =~= acc + a);
    }
}

proof fn lemma_sub(s: Seq<char>, pos: int, t: Seq<char>, i: int, m: int)
    requires
        0 <= pos,
        pos + t.len() <= s.len(),
        s.subrange(pos, pos + t.len()) == t,
        0 <= i <= m <= t.len(),
    ensures
        s.subrange(pos + i, pos + m) == t.subrange(i, m),
{
    assert forall|j: int| 0 <= j < m - i implies s.subrange(pos + i, pos + m)[j] == t.subrange(i, m)[j] by {
        assert(s.subrange(pos, pos + t.len())[i + j] == s[pos + i + j]);
    }
    assert(s.subrange(pos + i, pos + m) =~= t.subrange(i, m));
}

proof fn lemma_ltext_first(d: Layout, n: nat)
    requires
        lwf(d, n),
    ensures
        ltext(d, n).len() > 0,
        !char_is_whitespace(ltext(d, n)[0]),
        ltext(d, n)[0] != ')',
        d is Bare ==> ltext(d, n)[0] != '(' && ltext(d, n)[0] != '"',
        d is Quoted ==> ltext(d, n)[0] == '"',
        d is List ==> ltext(d, n)[0] == '(',
{
    match d {
        Layout::Bare(a) => {
            assert(!delim(a[0]));
        },
        Layout::Quoted(a) => {},
        Layout::List(items, tw) => {},
    }
}

proof fn lemma_itext_prefix(items: Seq<(Seq<char>, Layout)>, k: int, m: int, n: nat)
    requires
        0 <= k <= m <= items.len(),
    ensures
        itext(items, k, n).len() <= itext(items, m, n).len(),
        itext(items, m, n).subrange(0, itext(items, k, n).len() as int) == itext(items, k, n),
    decreases m - k,
{
    if k < m {
        lemma_itext_prefix(items, k, m - 1, n);
        if n > 0 {
            let a = itext(items, m - 1, n);
            let t = itext(items, m, n);
            assert(t.subrange(0, a.len() as int) =~= a);
            assert(t.subrange(0, itext(items, k, n).len() as int) =~= a.subrange(0, itext(items, k, n).len() as int));
        }
    } else {
        assert(itext(items, m, n).subrange(0, itext(items, m, n).len() as int) =~= itext(items, m, n));
    }
}

/// Reading the text of a well-formed layout gives back the expression it
/// denotes, ending just past it; a bare atom needs a delimiter (or the
/// end of the input) after it.
pub proof fn lemma_layout_parses(d: Layout, n: nat, s: Seq<char>, pos: int)
    requires
        lwf(d, n),
        0 <= pos,
        pos + ltext(d, n).len() <= s.len(),
        s.subrange(pos, pos + ltext(d, n).len()) == ltext(d, n),
        d is Bare ==> (pos + ltext(d, n).len() == s.len() || delim(s[pos + ltext(d, n).len()])),
    ensures
        p_expr(s, pos) == Ok::<(SexprView, int), Seq<char>>((lview(d, n), pos + ltext(d, n).len())),
    decreases n, 1int, 0int,
{
    let t = ltext(d, n);
    lemma_ltext_first(d, n);
    assert(s[pos] == t[0]);
    assert(ws_end(s, pos) == pos);
    match d {
        Layout::Bare(a) => {
            lemma_atom_run(s, pos, a);
        },
        Layout::Quoted(a) => {
            lemma_sub(s, pos, t, 1, 1 + a.len() as int);
            assert(t.subrange(1, 1 + a.len() as int) =~= a);
            assert(s[pos + 1 + a.len()] == s.subrange(pos, pos + t.len())[a.len() as int + 1]);
            assert(s[pos + 1 + a.len()] == t[a.len() as int + 1]);
            lemma_quoted_run(s, pos + 1, a, Seq::empty());
            assert(Seq::<char>::empty() + a =~= a);
        },
        Layout::List(items, tw) => {
            let body = itext(items, items.len() as int, n);
            lemma_sub(s, pos, t, 1, t.len() as int);
            assert(t.subrange(1, t.len() as int) =~= body + tw + seq![')']);
            assert(itext(items, 0, n) =~= Seq::<char>::empty());
            lemma_items_parse(items, tw, n, s, pos + 1, 0);
            lemma_iview_len(items, items.len() as int, n);
            assert(iview(items, items.len() as int, n).subrange(0, items.len() as int) =~= iview(
                items,
                items.len() as int,
                n,
            ));
        },
    }
}

pub proof fn lemma_iview_len(items: Seq<(Seq<char>, Layout)>, k: int, n: nat)
    requires
        0 <= k <= items.len(),
        n > 0,
    ensures
        iview(items, k, n).len() == k,
        forall|j: int| 0 <= j < k ==> #[trigger] iview(items, k, n)[j] == lview(items[j].1, (n - 1) as nat),
    decreases k,
{
    if k > 0 {
        lemma_iview_len(items, k - 1, n);
    }
}

proof fn lemma_iwf_at(items: Seq<(Seq<char>, Layout)>, k: int, j: int, n: nat)
    requires
        iwf(items, k, n),
        0 <= j < k <= items.len(),
        n > 0,
    ensures
        all_ws(items[j].0),
        j > 0 ==> items[j].0.len() > 0,
        lwf(items[j].1, (n - 1) as nat),
    decreases k,
{
    if j < k - 1 {
        lemma_iwf_at(items, k - 1, j, n);
    }
}

proof fn lemma_items_parse(
    items: Seq<(Seq<char>, Layout)>,
    tw: Seq<char>,
    n: nat,
    s: Seq<char>,
    start: int,
    k: int,
)
    requires
        n > 0,
        iwf(items, items.len() as int, n),
        all_ws(tw),
        0 <= k <= items.len(),
        0 <= start,
        start + itext(items, items.len() as int, n).len() + tw.len() + 1 <= s.len(),
        s.subrange(start, start + itext(items, items.len() as int, n).len() + tw.len() + 1) == itext(
            items,
            items.len() as int,
            n,
        ) + tw + seq![')'],
    ensures
        p_items(s, start + itext(items, k, n).len()) == Ok::<(Seq<SexprView>, int), Seq<char>>(
            (
                iview(items, items.len() as int, n).subrange(k, items.len() as int),
                start + itext(items, items.len() as int, n).len() + tw.len() + 1,
            ),
        ),
    decreases n, 0int, items.len() - k,
{
    let len = items.len() as int;
    let all = itext(items, len, n);
    let p = start + itext(items, k, n).len();
    let end = start + all.len() + tw.len() + 1;
    lemma_itext_prefix(items, k, len, n);
    lemma_iview_len(items, len, n);
    let whole = all + tw + seq![')'];
    if k == len {
        lemma_sub(s, start, whole, all.len() as int, (all.len() + tw.len()) as int);
        assert(whole.subrange(all.len() as int, (all.len() + tw.len()) as int) =~= tw);
        assert(s[p + tw.len()] == s.subrange(start, end)[(all.len() + tw.len()) as int]);
        assert(s[p + tw.len()] == ')');
        lemma_ws_run(s, p, tw);
        assert(iview(items, len, n).subrange(k, len) =~= Seq::<SexprView>::empty());
    } else {
        lemma_itext_prefix(items, k + 1, len, n);
        lemma_iwf_at(items, len, k, n);
        let w = items[k].0;
        let d = items[k].1;
        let dt = ltext(d, (n - 1) as nat);
        let nxt = itext(items, k + 1, n);
        assert(nxt == itext(items, k, n) + w + dt);
        let pre = itext(items, k, n).len() as int;
        assert(whole.subrange(0, nxt.len() as int) =~= nxt) by {
            assert(all.subrange(0, nxt.len() as int) == nxt);
        }
        lemma_sub(s, start, whole, pre, pre + w.len());
        assert(whole.subrange(pre, pre + w.len()) =~= w) by {
            assert(whole.subrange(pre, pre + w.len()) =~= nxt.subrange(pre, pre + w.len()));
        }
        lemma_sub(s, start, whole, pre + w.len(), nxt.len() as int);
        assert(whole.subrange(pre + w.len(), nxt.len() as int) =~= dt) by {
            assert(whole.subrange(pre + w.len(), nxt.len() as int) =~= nxt.subrange(pre + w.len(), nxt.len() as int));
        }
        lemma_ltext_first(d, (n - 1) as nat);
        assert(s[p + w.len()] == dt[0]);
        lemma_ws_run(s, p, w);
        let q2 = p + w.len() + dt.len();
        assert(q2 == start + nxt.len());
        if d is Bare {
            if k + 1 < len {
                lemma_iwf_at(items, len, k + 1, n);
                lemma_itext_prefix(items, k + 2, len, n);
                let nn = itext(items, k + 2, n);
                assert(nn == nxt + items[k + 1].0 + ltext(items[k + 1].1, (n - 1) as nat));
                assert(s[q2] == all[nxt.len() as int]) by {
                    assert(s.subrange(start, end) == all + tw + seq![')']);
                    assert(s[q2] == (all + tw + seq![')'])[nxt.len() as int]);
                }
                assert(all[nxt.len() as int] == nn[nxt.len() as int]);
                assert(nn[nxt.len() as int] == items[k + 1].0[0]);
                assert(char_is_whitespace(items[k + 1].0[0]));
            } else {
                assert(nxt.len() == all.len());
                assert(s[q2] == (all + tw + seq![')'])[all.len() as int]) by {
                    assert(s.subrange(start, end) == all + tw + seq![')']);
                }
                if tw.len() > 0 {
                    assert(char_is_whitespace(tw[0]));
                }
            }
        }
        lemma_layout_parses(d, (n - 1) as nat, s, p + w.len());
        lemma_items_parse(items, tw, n, s, start, k + 1);
        assert(seq![lview(d, (n - 1) as nat)] + iview(items, len, n).subrange(k + 1, len) =~= iview(
            items,
            len,
            n,
        ).subrange(k, len));
        assert(p < s.len());
        assert(s[p + w.len()] != ')');
    }
}

} // verus!
