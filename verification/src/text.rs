//! Character-level helpers shared by the file-format parsers and writers:
//! converting between `str` and `Vec<char>`, character classes, and exact
//! decimal number parsing and formatting.

use vstd::prelude::*;

verus! {

/// The characters of `s`, in order.
pub(crate) fn chars_of(s: &str) -> (r: Vec<char>)
    ensures
        r@ == s@,
{
    let mut r: Vec<char> = Vec::new();
    for c in it: s.chars()
        invariant
            r@ == it.seq().subrange(0, it.index() as int),
    {
        r.push(c);
    }
    proof {
        broadcast use vstd::string::group_string_axioms;

        assert(r@ =~= s@);
    }
    r
}

/// Appends `c` to `s` (std's `String::push`).
#[verifier::external_body]
pub(crate) fn push_char(s: &mut String, c: char)
    ensures
        final(s)@ == old(s)@.push(c),
{
    s.push(c);
}

/// Appends `t` to `s`.
pub(crate) fn push_str(s: &mut String, t: &str)
    ensures
        final(s)@ == old(s)@ + t@,
{
    s.append(t);
}

/// A `String` holding exactly the characters `v[lo..hi]`.
pub(crate) fn string_from(v: &Vec<char>, lo: usize, hi: usize) -> (r: String)
    requires
        lo <= hi <= v@.len(),
    ensures
        r@ == v@.subrange(lo as int, hi as int),
{
    let mut r = String::new();
    let mut i = lo;
    while i < hi
        invariant
            lo <= i <= hi <= v@.len(),
            r@ == v@.subrange(lo as int, i as int),
        decreases hi - i,
    {
        push_char(&mut r, v[i]);
        i += 1;
        proof {
            assert(r@ =~= v@.subrange(lo as int, i as int));
        }
    }
    r
}

/// A fresh `String` with the characters of `s`.
pub(crate) fn owned(s: &str) -> (r: String)
    ensures
        r@ == s@,
{
    String::from_str(s)
}

/// Whether `a` and `b` hold the same characters.
pub(crate) fn str_eq(a: &str, b: &str) -> (r: bool)
    ensures
        r == (a@ == b@),
{
    owned(a) == owned(b)
}

/// Whether `c` has the Unicode `White_Space` property, which is what std's
/// `char::is_whitespace` decides: the ASCII tab, line feed, vertical tab,
/// form feed, carriage return and space, plus the non-ASCII members of
/// the property (next line, no-break space, Ogham space mark, the spaces
/// U+2000 to U+200A, line and paragraph separators, narrow no-break
/// space, medium mathematical space, ideographic space).
pub open spec fn char_is_whitespace(c: char) -> bool {
    ||| c == ' '
    ||| ('\t' <= c && c <= '\r')
    ||| c == '\u{85}'
    ||| c == '\u{a0}'
    ||| c == '\u{1680}'
    ||| ('\u{2000}' <= c && c <= '\u{200a}')
    ||| c == '\u{2028}'
    ||| c == '\u{2029}'
    ||| c == '\u{202f}'
    ||| c == '\u{205f}'
    ||| c == '\u{3000}'
}

/// Whether `c` is alphabetic or numeric in Unicode's sense, as std's
/// `char::is_alphanumeric` decides it.
pub uninterp spec fn char_is_alphanumeric(c: char) -> bool;

/// Whether `c` is Unicode white space (see `char_is_whitespace`).
pub(crate) fn is_whitespace(c: char) -> (r: bool)
    ensures
        r == char_is_whitespace(c),
{
    c == ' ' || ('\t' <= c && c <= '\r') || c == '\u{85}' || c == '\u{a0}' || c == '\u{1680}' || ('\u{2000}' <= c
        && c <= '\u{200a}') || c == '\u{2028}' || c == '\u{2029}' || c == '\u{202f}' || c == '\u{205f}' || c
        == '\u{3000}'
}

/// std's `char::is_alphanumeric`; the contract names its result
/// (`char_is_alphanumeric`) and states what it is on ASCII: the letters
/// and digits are alphanumeric, no other ASCII character is.
#[verifier::external_body]
pub(crate) fn is_alphanumeric(c: char) -> (r: bool)
    ensures
        r == char_is_alphanumeric(c),
        (c as int) < 128 ==> (r <==> ('0' <= c <= '9' || 'a' <= c <= 'z' || 'A' <= c <= 'Z')),
{
    c.is_alphanumeric()
}

/// The lowercase form of `s`, as std's `str::to_lowercase` computes it.
pub uninterp spec fn lowercase(s: Seq<char>) -> Seq<char>;

/// The ASCII lowercase of `c`: `A`-`Z` become `a`-`z`, others stay.
pub open spec fn ascii_lower(c: char) -> char {
    if 'A' <= c <= 'Z' {
        ((c as int) + 32) as char
    } else {
        c
    }
}

/// std's `str::to_lowercase`; the contract names its result (`lowercase`)
/// and states what it is on ASCII text: each letter `A`-`Z` lowered, every
/// other character kept.
#[verifier::external_body]
pub(crate) fn to_lowercase(s: &str) -> (r: String)
    ensures
        r@ == lowercase(s@),
        (forall|i: int| 0 <= i < s@.len() ==> (#[trigger] s@[i] as int) < 128) ==> r@ == s@.map_values(
            |c: char| ascii_lower(c),
        ),
{
    s.to_lowercase()
}

pub open spec fn is_digit(c: char) -> bool {
    '0' <= c <= '9'
}

pub open spec fn digit_value(c: char) -> int {
    (c as int) - ('0' as int)
}

/// The value of a run of decimal digits.
pub open spec fn digits_value(s: Seq<char>) -> int
    decreases s.len(),
{
    if s.len() == 0 {
        0
    } else {
        digits_value(s.drop_last()) * 10 + digit_value(s.last())
    }
}

pub open spec fn all_digits(s: Seq<char>) -> bool {
    forall|i: int| 0 <= i < s.len() ==> is_digit(#[trigger] s[i])
}

/// std's `i64::from_str`: an optional `+` or `-`, then one or more ASCII
/// digits, with a value that fits in `i64`.
pub open spec fn spec_parse_i64(s: Seq<char>) -> Option<i64> {
    let neg = s.len() > 0 && s[0] == '-';
    let body = if s.len() > 0 && (s[0] == '-' || s[0] == '+') {
        s.drop_first()
    } else {
        s
    };
    let v = if neg {
        -digits_value(body)
    } else {
        digits_value(body)
    };
    if body.len() == 0 || !all_digits(body) || v < i64::MIN || v > i64::MAX {
        None
    } else {
        Some(v as i64)
    }
}

/// std's `u32::from_str`: an optional `+`, then one or more ASCII digits,
/// with a value that fits in `u32`.
pub open spec fn spec_parse_u32(s: Seq<char>) -> Option<u32> {
    let body = if s.len() > 0 && s[0] == '+' {
        s.drop_first()
    } else {
        s
    };
    let v = digits_value(body);
    if body.len() == 0 || !all_digits(body) || v > u32::MAX {
        None
    } else {
        Some(v as u32)
    }
}

proof fn lemma_digits_value_nonneg(s: Seq<char>)
    requires
        all_digits(s),
    ensures
        digits_value(s) >= 0,
    decreases s.len(),
{
    if s.len() > 0 {
        lemma_digits_value_nonneg(s.drop_last());
        assert(is_digit(s[s.len() - 1]));
    }
}

/// Parses the digit run `v[lo..hi]`, stopping with `None` as soon as the
/// value exceeds `limit`.
fn digits_up_to(v: &Vec<char>, lo: usize, hi: usize, limit: u128) -> (r: Option<u128>)
    requires
        lo <= hi <= v@.len(),
        limit <= 0x1_0000_0000_0000_0000,
    ensures
        match r {
            Some(x) => all_digits(v@.subrange(lo as int, hi as int)) && x == digits_value(
                v@.subrange(lo as int, hi as int),
            ) && x <= limit,
            None => !all_digits(v@.subrange(lo as int, hi as int)) || digits_value(
                v@.subrange(lo as int, hi as int),
            ) > limit,
        },
{
    let mut acc: u128 = 0;
    let mut i = lo;
    while i < hi
        invariant
            lo <= i <= hi <= v@.len(),
            limit <= 0x1_0000_0000_0000_0000,
            all_digits(v@.subrange(lo as int, i as int)),
            acc == digits_value(v@.subrange(lo as int, i as int)),
            acc <= limit,
        decreases hi - i,
    {
        let c = v[i];
        let ghost prev = v@.subrange(lo as int, i as int);
        let ghost next = v@.subrange(lo as int, i + 1);
        proof {
            assert(next.drop_last() =~= prev);
            assert(next.last() == c);
        }
        if !('0' <= c && c <= '9') {
            proof {
                assert(!is_digit(next[i - lo]));
                lemma_not_all_digits_extends(v@, lo as int, i as int + 1, hi as int);
            }
            return None;
        }
        let d = (c as u32 - '0' as u32) as u128;
        acc = acc * 10 + d;
        i += 1;
        if acc > limit {
            proof {
                lemma_digits_exceed_extends(v@, lo as int, i as int, hi as int, limit as int);
            }
            return None;
        }
    }
    Some(acc)
}

proof fn lemma_not_all_digits_extends(s: Seq<char>, lo: int, mid: int, hi: int)
    requires
        0 <= lo <= mid <= hi <= s.len(),
        !all_digits(s.subrange(lo, mid)),
    ensures
        !all_digits(s.subrange(lo, hi)),
{
    let k = choose|k: int| 0 <= k < mid - lo && !is_digit(#[trigger] s.subrange(lo, mid)[k]);
    assert(s.subrange(lo, hi)[k] == s.subrange(lo, mid)[k]);
}

proof fn lemma_digits_exceed_extends(s: Seq<char>, lo: int, mid: int, hi: int, limit: int)
    requires
        0 <= lo <= mid <= hi <= s.len(),
        all_digits(s.subrange(lo, mid)),
        digits_value(s.subrange(lo, mid)) > limit,
        limit >= 0,
    ensures
        !all_digits(s.subrange(lo, hi)) || digits_value(s.subrange(lo, hi)) > limit,
    decreases hi - mid,
{
    if mid < hi && all_digits(s.subrange(lo, hi)) {
        let next = s.subrange(lo, mid + 1);
        assert(next.drop_last() =~= s.subrange(lo, mid));
        assert(all_digits(next)) by {
            assert forall|k: int| 0 <= k < next.len() implies is_digit(#[trigger] next[k]) by {
                assert(next[k] == s.subrange(lo, hi)[k]);
            }
        }
        assert(is_digit(next.last()));
        assert(digits_value(next) > limit);
        lemma_digits_exceed_extends(s, lo, mid + 1, hi, limit);
    }
}

/// `i64::from_str` on the characters `v[lo..hi]`.
pub(crate) fn parse_i64(v: &Vec<char>, lo: usize, hi: usize) -> (r: Option<i64>)
    requires
        lo <= hi <= v@.len(),
    ensures
        r == spec_parse_i64(v@.subrange(lo as int, hi as int)),
{
    let ghost s = v@.subrange(lo as int, hi as int);
    if lo == hi {
        return None;
    }
    let neg = v[lo] == '-';
    let start = if v[lo] == '-' || v[lo] == '+' {
        lo + 1
    } else {
        lo
    };
    proof {
        if start == lo + 1 {
            assert(s.drop_first() =~= v@.subrange(start as int, hi as int));
        } else {
            assert(s =~= v@.subrange(start as int, hi as int));
        }
    }
    if start == hi {
        return None;
    }
    let limit: u128 = 0x8000_0000_0000_0000;
    match digits_up_to(v, start, hi, limit) {
        None => {
            proof {
                let body = v@.subrange(start as int, hi as int);
                if all_digits(body) {
                    lemma_digits_value_nonneg(body);
                }
            }
            None
        },
        Some(x) => {
            if neg {
                proof {
                    lemma_digits_value_nonneg(v@.subrange(start as int, hi as int));
                }
                if x == 0x8000_0000_0000_0000 {
                    Some(i64::MIN)
                } else {
                    Some(-(x as i64))
                }
            } else if x > 0x7fff_ffff_ffff_ffff {
                None
            } else {
                Some(x as i64)
            }
        },
    }
}

/// `u32::from_str` on the characters `v[lo..hi]`.
pub(crate) fn parse_u32(v: &Vec<char>, lo: usize, hi: usize) -> (r: Option<u32>)
    requires
        lo <= hi <= v@.len(),
    ensures
        r == spec_parse_u32(v@.subrange(lo as int, hi as int)),
{
    let ghost s = v@.subrange(lo as int, hi as int);
    if lo == hi {
        return None;
    }
    let start = if v[lo] == '+' {
        lo + 1
    } else {
        lo
    };
    proof {
        if start == lo + 1 {
            assert(s.drop_first() =~= v@.subrange(start as int, hi as int));
        } else {
            assert(s =~= v@.subrange(start as int, hi as int));
        }
    }
    if start == hi {
        return None;
    }
    match digits_up_to(v, start, hi, 0xffff_ffff) {
        None => None,
        Some(x) => Some(x as u32),
    }
}

/// The index of the first `c` in `s`, or `-1`.
pub open spec fn index_of(s: Seq<char>, c: char) -> int
    decreases s.len(),
{
    if s.len() == 0 {
        -1
    } else if s[0] == c {
        0
    } else {
        let r = index_of(s.drop_first(), c);
        if r < 0 {
            -1
        } else {
            r + 1
        }
    }
}

proof fn lemma_index_of(s: Seq<char>, c: char)
    ensures
        -1 <= index_of(s, c) < s.len(),
        index_of(s, c) >= 0 ==> s[index_of(s, c)] == c,
        forall|j: int| 0 <= j < s.len() && (index_of(s, c) < 0 || j < index_of(s, c)) ==> s[j] != c,
    decreases s.len(),
{
    if s.len() > 0 && s[0] != c {
        lemma_index_of(s.drop_first(), c);
        assert forall|j: int| 0 <= j < s.len() && (index_of(s, c) < 0 || j < index_of(s, c)) implies s[j] != c by {
            if j > 0 {
                assert(s[j] == s.drop_first()[j - 1]);
            }
        }
    }
}

/// The first six digits of a fractional part, as millionths (missing
/// digits count as zeros).
pub open spec fn frac_millionths(f: Seq<char>, k: int) -> int
    decreases k,
{
    if k <= 0 {
        0
    } else {
        frac_millionths(f, k - 1) * 10 + if k - 1 < f.len() {
            digit_value(f[k - 1])
        } else {
            0
        }
    }
}

/// A plain decimal number of millimetres, converted to whole nanometres
/// and rounded half away from zero: an optional `+`/`-`, digits, and an
/// optional `.` followed by digits, with at least one digit in all;
/// the result must fit in `i64`.
#[verifier::opaque]
pub open spec fn spec_parse_plain_mm(s: Seq<char>) -> Option<i64> {
    let neg = s.len() > 0 && s[0] == '-';
    let body = if s.len() > 0 && (s[0] == '-' || s[0] == '+') {
        s.drop_first()
    } else {
        s
    };
    let d = index_of(body, '.');
    let ip = if d < 0 {
        body
    } else {
        body.subrange(0, d)
    };
    let f = if d < 0 {
        Seq::<char>::empty()
    } else {
        body.subrange(d + 1, body.len() as int)
    };
    let mag = digits_value(ip) * 1_000_000 + frac_millionths(f, 6) + if f.len() > 6 && digit_value(
        f[6],
    ) >= 5 {
        1int
    } else {
        0int
    };
    let v = if neg {
        -mag
    } else {
        mag
    };
    if !all_digits(ip) || !all_digits(f) || ip.len() + f.len() == 0 || v < i64::MIN || v
        > i64::MAX {
        None
    } else {
        Some(v as i64)
    }
}

fn find_char(v: &Vec<char>, lo: usize, hi: usize, c: char) -> (r: usize)
    requires
        lo <= hi <= v@.len(),
    ensures
        lo <= r <= hi,
        r < hi ==> v@[r as int] == c,
        forall|j: int| lo <= j < r ==> v@[j] != c,
{
    let mut i = lo;
    while i < hi
        invariant
            lo <= i <= hi <= v@.len(),
            forall|j: int| lo <= j < i ==> v@[j] != c,
        decreases hi - i,
    {
        if v[i] == c {
            return i;
        }
        i += 1;
    }
    hi
}

proof fn lemma_index_of_found(s: Seq<char>, c: char, r: int)
    requires
        0 <= r <= s.len(),
        r < s.len() ==> s[r] == c,
        forall|j: int| 0 <= j < r ==> s[j] != c,
    ensures
        index_of(s, c) == if r < s.len() {
            r
        } else {
            -1
        },
{
    lemma_index_of(s, c);
    let k = index_of(s, c);
    if k >= 0 && k < r {
        assert(s[k] != c);
    }
    if r < s.len() && (k < 0 || r < k) {
        assert(s[r] != c);
    }
}

/// The first index of an exponent mark (`e` or `E`) in `s`, -1 for none.
pub open spec fn exp_index(s: Seq<char>) -> int
    decreases s.len(),
{
    if s.len() == 0 {
        -1
    } else if s[0] == 'e' || s[0] == 'E' {
        0
    } else {
        let r = exp_index(s.drop_first());
        if r < 0 {
            -1
        } else {
            r + 1
        }
    }
}

/// An exponent: an optional `+`/`-`, then one or more digits.
pub open spec fn spec_exponent(t: Seq<char>) -> Option<int> {
    let neg = t.len() > 0 && t[0] == '-';
    let ds = if t.len() > 0 && (t[0] == '-' || t[0] == '+') {
        t.drop_first()
    } else {
        t
    };
    if ds.len() == 0 || !all_digits(ds) {
        None
    } else if neg {
        Some(-digits_value(ds))
    } else {
        Some(digits_value(ds))
    }
}

pub open spec fn zeros(n: int) -> Seq<char> {
    Seq::new(n as nat, |i: int| '0')
}

/// The digits `d` as plain decimal text with the decimal point after `p`
/// of them (zeros filling in on either side).
pub open spec fn point_at(d: Seq<char>, p: int) -> Seq<char> {
    if p <= 0 {
        seq!['0', '.'] + zeros(-p) + d
    } else if p >= d.len() {
        d + zeros(p - d.len())
    } else {
        d.subrange(0, p) + seq!['.'] + d.subrange(p, d.len() as int)
    }
}

/// A decimal number of millimetres, converted to whole nanometres and
/// rounded half away from zero: a plain decimal (`spec_parse_plain_mm`),
/// or one with an exponent (`e` or `E`, then an optional sign and
/// digits), read as the plain decimal with its point moved by the
/// exponent. Exponents beyond a thousand, and digit strings over a
/// billion characters before an exponent, are refused.
pub open spec fn spec_parse_mm_nm(s: Seq<char>) -> Option<i64> {
    let neg = s.len() > 0 && s[0] == '-';
    let body = if s.len() > 0 && (s[0] == '-' || s[0] == '+') {
        s.drop_first()
    } else {
        s
    };
    let k = exp_index(body);
    if k < 0 {
        spec_parse_plain_mm(s)
    } else {
        let mant = body.subrange(0, k);
        let d = index_of(mant, '.');
        let ip = if d < 0 {
            mant
        } else {
            mant.subrange(0, d)
        };
        let f = if d < 0 {
            Seq::<char>::empty()
        } else {
            mant.subrange(d + 1, mant.len() as int)
        };
        match spec_exponent(body.subrange(k + 1, body.len() as int)) {
            Some(e) => if !all_digits(ip) || !all_digits(f) || ip.len() + f.len() == 0 || e < -1000 || e > 1000
                || mant.len() > 1_000_000_000 {
                None
            } else {
                spec_parse_plain_mm(
                    (if neg {
                        seq!['-']
                    } else {
                        Seq::empty()
                    }) + point_at(ip + f, ip.len() + e),
                )
            },
            None => None,
        }
    }
}

proof fn lemma_exp_index(s: Seq<char>)
    ensures
        -1 <= exp_index(s) < s.len(),
        exp_index(s) >= 0 ==> (s[exp_index(s)] == 'e' || s[exp_index(s)] == 'E'),
        forall|j: int| 0 <= j < exp_index(s) || (exp_index(s) < 0 && 0 <= j < s.len()) ==> s[j] != 'e' && s[j] != 'E',
    decreases s.len(),
{
    if s.len() > 0 && !(s[0] == 'e' || s[0] == 'E') {
        lemma_exp_index(s.drop_first());
        assert forall|j: int| 0 <= j < exp_index(s) || (exp_index(s) < 0 && 0 <= j < s.len()) implies s[j] != 'e' && s[j] != 'E' by {
            if j > 0 {
                assert(s[j] == s.drop_first()[j - 1]);
            }
        }
    }
}

proof fn lemma_exp_index_found(s: Seq<char>, r: int)
    requires
        0 <= r <= s.len(),
        r < s.len() ==> (s[r] == 'e' || s[r] == 'E'),
        forall|j: int| 0 <= j < r ==> s[j] != 'e' && s[j] != 'E',
    ensures
        exp_index(s) == if r < s.len() {
            r
        } else {
            -1
        },
{
    lemma_exp_index(s);
    let k = exp_index(s);
    if k >= 0 && k < r {
        assert(s[k] != 'e' && s[k] != 'E');
    }
    if r < s.len() && (k < 0 || r < k) {
        assert(s[r] != 'e' && s[r] != 'E');
    }
}

/// A decimal number of millimetres (`v[lo..hi]`) in whole nanometres
/// (see `spec_parse_mm_nm`).
pub(crate) fn parse_mm_nm(v: &Vec<char>, lo: usize, hi: usize) -> (r: Option<i64>)
    requires
        lo <= hi <= v@.len(),
    ensures
        r == spec_parse_mm_nm(v@.subrange(lo as int, hi as int)),
{
    let ghost s = v@.subrange(lo as int, hi as int);
    let start = if lo < hi && (v[lo] == '-' || v[lo] == '+') {
        lo + 1
    } else {
        lo
    };
    let ghost body = v@.subrange(start as int, hi as int);
    proof {
        if start == lo + 1 {
            assert(s.drop_first() =~= body);
        } else {
            assert(s =~= body);
        }
    }
    let mut k = start;
    while k < hi && v[k] != 'e' && v[k] != 'E'
        invariant
            start <= k <= hi <= v@.len(),
            forall|j: int| start <= j < k ==> v@[j] != 'e' && v@[j] != 'E',
        decreases hi - k,
    {
        k += 1;
    }
    proof {
        lemma_exp_index_found(body, k - start);
    }
    if k == hi {
        return parse_plain_mm(v, lo, hi);
    }
    parse_exp_mm(v, lo, hi, start, k)
}

/// The exponent form of `parse_mm_nm`: `v[start..k]` the digits before the
/// exponent mark at `k`, after the sign at `lo` if any.
fn parse_exp_mm(v: &Vec<char>, lo: usize, hi: usize, start: usize, k: usize) -> (r: Option<i64>)
    requires
        lo <= start <= k < hi <= v@.len(),
        start == (if lo < hi && (v@[lo as int] == '-' || v@[lo as int] == '+') { lo + 1 } else { lo as int }),
        v@[k as int] == 'e' || v@[k as int] == 'E',
        forall|j: int| start <= j < k ==> v@[j] != 'e' && v@[j] != 'E',
    ensures
        r == spec_parse_mm_nm(v@.subrange(lo as int, hi as int)),
{
    let ghost s = v@.subrange(lo as int, hi as int);
    let ghost body = v@.subrange(start as int, hi as int);
    proof {
        if start == lo + 1 {
            assert(s.drop_first() =~= body);
        } else {
            assert(s =~= body);
        }
        lemma_exp_index_found(body, k - start);
        assert(body.subrange(k - start + 1, body.len() as int) =~= v@.subrange(k + 1, hi as int));
    }
    let e = match parse_exponent(v, k + 1, hi) {
        Some(e) => e,
        None => return None,
    };
    if k - start > 1_000_000_000 {
        return None;
    }
    let dot = find_char(v, start, k, '.');
    let ghost mant = v@.subrange(start as int, k as int);
    proof {
        assert(mant =~= body.subrange(0, k - start));
        lemma_index_of_found(mant, '.', dot - start);
    }
    let frac_lo = if dot < k {
        dot + 1
    } else {
        k
    };
    let ghost ip = v@.subrange(start as int, dot as int);
    let ghost f = v@.subrange(frac_lo as int, k as int);
    proof {
        assert(ip =~= if dot < k { mant.subrange(0, dot - start) } else { mant });
        if dot < k {
            assert(f =~= mant.subrange(dot - start + 1, mant.len() as int));
        } else {
            assert(f =~= Seq::<char>::empty());
        }
    }
    if !digits_only(v, start, dot) || !digits_only(v, frac_lo, k) || (dot == start && frac_lo == k) {
        return None;
    }
    let mut d: Vec<char> = Vec::new();
    let mut i = start;
    while i < dot
        invariant
            start <= i <= dot <= v@.len(),
            d@ == v@.subrange(start as int, i as int),
        decreases dot - i,
    {
        d.push(v[i]);
        i += 1;
        proof {
            assert(d@ =~= v@.subrange(start as int, i as int));
        }
    }
    let mut i = frac_lo;
    while i < k
        invariant
            frac_lo <= i <= k <= v@.len(),
            d@ == ip + v@.subrange(frac_lo as int, i as int),
        decreases k - i,
    {
        d.push(v[i]);
        i += 1;
        proof {
            assert(d@ =~= ip + v@.subrange(frac_lo as int, i as int));
        }
    }
    let ip_len = (dot - start) as i64;
    let p: i64 = ip_len + e;
    let mut t: Vec<char> = Vec::new();
    if lo < start && v[lo] == '-' {
        t.push('-');
    }
    let ghost sign = t@;
    proof {
        assert(sign =~= if s.len() > 0 && s[0] == '-' { seq!['-'] } else { Seq::<char>::empty() });
        assert(d@ =~= ip + f);
    }
    push_point_at(&mut t, &d, p);
    proof {
        assert(t@.subrange(0, t@.len() as int) =~= t@);
        assert(t@ == sign + point_at(ip + f, ip.len() + e));
    }
    parse_plain_mm(&t, 0, t.len())
}

/// Whether `v[lo..hi]` is all digits.
fn digits_only(v: &Vec<char>, lo: usize, hi: usize) -> (r: bool)
    requires
        lo <= hi <= v@.len(),
    ensures
        r == all_digits(v@.subrange(lo as int, hi as int)),
{
    let mut i = lo;
    while i < hi
        invariant
            lo <= i <= hi <= v@.len(),
            forall|j: int| lo <= j < i ==> is_digit(v@[j]),
        decreases hi - i,
    {
        if !('0' <= v[i] && v[i] <= '9') {
            proof {
                assert(!is_digit(v@.subrange(lo as int, hi as int)[i - lo]));
            }
            return false;
        }
        i += 1;
    }
    proof {
        assert forall|j: int| 0 <= j < hi - lo implies is_digit(#[trigger] v@.subrange(lo as int, hi as int)[j]) by {
            assert(v@.subrange(lo as int, hi as int)[j] == v@[lo + j]);
        }
    }
    true
}

/// The exponent `v[lo..hi]` (see `spec_exponent`), when it is at most a
/// thousand either way.
fn parse_exponent(v: &Vec<char>, lo: usize, hi: usize) -> (r: Option<i64>)
    requires
        lo <= hi <= v@.len(),
    ensures
        match r {
            Some(e) => spec_exponent(v@.subrange(lo as int, hi as int)) == Some(e as int) && -1000 <= e <= 1000,
            None => match spec_exponent(v@.subrange(lo as int, hi as int)) {
                Some(e) => e < -1000 || e > 1000,
                None => true,
            },
        },
{
    let ghost t = v@.subrange(lo as int, hi as int);
    let neg = lo < hi && v[lo] == '-';
    let ds = if lo < hi && (v[lo] == '-' || v[lo] == '+') {
        lo + 1
    } else {
        lo
    };
    proof {
        if ds == lo + 1 {
            assert(t.drop_first() =~= v@.subrange(ds as int, hi as int));
        } else {
            assert(t =~= v@.subrange(ds as int, hi as int));
        }
    }
    if ds == hi {
        return None;
    }
    match digits_up_to(v, ds, hi, 1000) {
        Some(x) => {
            if neg {
                Some(-(x as i64))
            } else {
                Some(x as i64)
            }
        },
        None => None,
    }
}

/// Appends the digits `d` as plain decimal text with the decimal point
/// after `p` of them (see `point_at`).
fn push_point_at(t: &mut Vec<char>, d: &Vec<char>, p: i64)
    requires
        -2000 <= p <= 2_000_000_000,
    ensures
        final(t)@ == old(t)@ + point_at(d@, p as int),
{
    let ghost t0 = t@;
    if p <= 0 {
        t.push('0');
        t.push('.');
        let mut z: i64 = 0;
        while z < -p
            invariant
                -2000 <= p <= 0,
                0 <= z <= -p,
                t@ == t0 + seq!['0', '.'] + zeros(z as int),
            decreases -p - z,
        {
            t.push('0');
            z += 1;
            proof {
                assert(t@ =~= t0 + seq!['0', '.'] + zeros(z as int));
            }
        }
        let mut i: usize = 0;
        while i < d.len()
            invariant
                i <= d@.len(),
                t@ == t0 + seq!['0', '.'] + zeros(-p as int) + d@.subrange(0, i as int),
            decreases d@.len() - i,
        {
            t.push(d[i]);
            i += 1;
            proof {
                assert(t@ =~= t0 + seq!['0', '.'] + zeros(-p as int) + d@.subrange(0, i as int));
            }
        }
        proof {
            assert(d@.subrange(0, d@.len() as int) =~= d@);
            assert(t@ =~= t0 + point_at(d@, p as int));
        }
    } else {
        let pu = p as usize;
        let mut i: usize = 0;
        while i < d.len()
            invariant
                i <= d@.len(),
                0 < p <= 2_000_000_000,
                pu == p,
                t@ == t0 + if (i as int) <= p {
                    d@.subrange(0, i as int)
                } else {
                    d@.subrange(0, p as int) + seq!['.'] + d@.subrange(p as int, i as int)
                },
            decreases d@.len() - i,
        {
            if i == pu {
                t.push('.');
            }
            t.push(d[i]);
            i += 1;
            proof {
                assert(t@ =~= t0 + if (i as int) <= p {
                    d@.subrange(0, i as int)
                } else {
                    d@.subrange(0, p as int) + seq!['.'] + d@.subrange(p as int, i as int)
                });
            }
        }
        proof {
            assert(d@.subrange(0, d@.len() as int) =~= d@);
        }
        if pu >= d.len() {
            let mut z: usize = d.len();
            proof {
                assert(t@ =~= t0 + d@ + zeros(z - d@.len()));
            }
            while z < pu
                invariant
                    d@.len() <= z <= pu,
                    pu == p,
                    t@ == t0 + d@ + zeros(z - d@.len()),
                decreases pu - z,
            {
                t.push('0');
                z += 1;
                proof {
                    assert(t@ =~= t0 + d@ + zeros(z - d@.len()));
                }
            }
            proof {
                assert(t@ =~= t0 + point_at(d@, p as int));
            }
        } else {
            proof {
                assert(t@ =~= t0 + point_at(d@, p as int));
            }
        }
    }
}

/// A plain decimal number of millimetres (`v[lo..hi]`) in whole
/// nanometres (see `spec_parse_plain_mm`).
fn parse_plain_mm(v: &Vec<char>, lo: usize, hi: usize) -> (r: Option<i64>)
    requires
        lo <= hi <= v@.len(),
    ensures
        r == spec_parse_plain_mm(v@.subrange(lo as int, hi as int)),
{
    reveal(spec_parse_plain_mm);
    let ghost s = v@.subrange(lo as int, hi as int);
    if lo == hi {
        return None;
    }
    let neg = v[lo] == '-';
    let start = if v[lo] == '-' || v[lo] == '+' {
        lo + 1
    } else {
        lo
    };
    let ghost body = v@.subrange(start as int, hi as int);
    proof {
        if start == lo + 1 {
            assert(s.drop_first() =~= body);
        } else {
            assert(s =~= body);
        }
    }
    let dot = find_char(v, start, hi, '.');
    proof {
        lemma_index_of_found(body, '.', dot - start);
    }
    let frac_lo = if dot < hi {
        dot + 1
    } else {
        hi
    };
    let ghost ip = v@.subrange(start as int, dot as int);
    let ghost f = v@.subrange(frac_lo as int, hi as int);
    proof {
        assert(ip =~= if dot < hi { body.subrange(0, dot - start) } else { body });
        if dot < hi {
            assert(f =~= body.subrange(dot - start + 1, body.len() as int));
        } else {
            assert(f =~= Seq::<char>::empty());
        }
    }
    if dot == start && frac_lo == hi {
        return None;
    }
    let int_part = match digits_up_to(v, start, dot, 10_000_000_000_000) {
        Some(x) => x,
        None => {
            proof {
                if all_digits(ip) && all_digits(f) {
                    lemma_digits_value_nonneg(ip);
                    lemma_frac_bounds(f, 6);
                }
            }
            return None;
        },
    };
    let (frac, rounding) = match frac_digits(v, frac_lo, hi) {
        Some(x) => x,
        None => return None,
    };
    proof {
        assert(all_digits(f));
        lemma_frac_bounds(f, 6);
    }
    let mag: u128 = int_part * 1_000_000 + frac + rounding;
    if neg {
        if mag > 0x8000_0000_0000_0000 {
            return None;
        }
        if mag == 0x8000_0000_0000_0000 {
            Some(i64::MIN)
        } else {
            Some(-(mag as i64))
        }
    } else {
        if mag > 0x7fff_ffff_ffff_ffff {
            return None;
        }
        Some(mag as i64)
    }
}


/// The fractional digits `v[lo..hi]`: their first six as millionths, and
/// whether the seventh rounds up.
fn frac_digits(v: &Vec<char>, lo: usize, hi: usize) -> (r: Option<(u128, u128)>)
    requires
        lo <= hi <= v@.len(),
    ensures
        match r {
            Some((frac, rounding)) => {
                let f = v@.subrange(lo as int, hi as int);
                &&& all_digits(f)
                &&& frac == frac_millionths(f, 6)
                &&& rounding == if f.len() > 6 && digit_value(f[6]) >= 5 {
                    1int
                } else {
                    0int
                }
                &&& frac < 1_000_000
            },
            None => !all_digits(v@.subrange(lo as int, hi as int)),
        },
{
    let ghost f = v@.subrange(lo as int, hi as int);
    let mut frac: u128 = 0;
    let mut k: usize = 0;
    while k < 6
        invariant
            0 <= k <= 6,
            lo <= hi <= v@.len(),
            f == v@.subrange(lo as int, hi as int),
            frac == frac_millionths(f, k as int),
            frac < pow10_spec(k as int),
            pow10_spec(k as int) <= 1_000_000,
            forall|j: int| 0 <= j < k && j < f.len() ==> is_digit(f[j]),
        decreases 6 - k,
    {
        proof {
            reveal_with_fuel(pow10_spec, 7);
        }
        let mut d: u128 = 0;
        if k < hi - lo {
            let c = v[lo + k];
            if !('0' <= c && c <= '9') {
                proof {
                    assert(!is_digit(f[k as int]));
                }
                return None;
            }
            d = (c as u32 - '0' as u32) as u128;
        }
        frac = frac * 10 + d;
        k += 1;
    }
    proof {
        reveal_with_fuel(pow10_spec, 7);
    }
    let mut rounding: u128 = 0;
    if 6 < hi - lo {
        let c = v[lo + 6];
        if !('0' <= c && c <= '9') {
            proof {
                assert(!is_digit(f[6]));
            }
            return None;
        }
        if c >= '5' {
            rounding = 1;
        }
        let mut j = lo + 7;
        while j < hi
            invariant
                lo + 7 <= j <= hi <= v@.len(),
                f == v@.subrange(lo as int, hi as int),
                forall|i: int| 0 <= i < j - lo ==> is_digit(f[i]),
            decreases hi - j,
        {
            let c2 = v[j];
            if !('0' <= c2 && c2 <= '9') {
                proof {
                    assert(!is_digit(f[j - lo]));
                }
                return None;
            }
            j += 1;
        }
    }
    proof {
        assert(all_digits(f));
    }
    Some((frac, rounding))
}

pub open spec fn pow10_spec(k: int) -> int
    decreases k,
{
    if k <= 0 {
        1
    } else {
        10 * pow10_spec(k - 1)
    }
}

proof fn lemma_frac_bounds(f: Seq<char>, k: int)
    requires
        0 <= k,
        all_digits(f),
    ensures
        0 <= frac_millionths(f, k) < pow10_spec(k),
    decreases k,
{
    if k > 0 {
        lemma_frac_bounds(f, k - 1);
        if k - 1 < f.len() {
            assert(is_digit(f[k - 1]));
        }
    }
}

/// The digit character for `d` in `0..16` (lowercase for 10 and up).
pub open spec fn digit_char(d: int) -> char {
    if d == 0 {
        '0'
    } else if d == 1 {
        '1'
    } else if d == 2 {
        '2'
    } else if d == 3 {
        '3'
    } else if d == 4 {
        '4'
    } else if d == 5 {
        '5'
    } else if d == 6 {
        '6'
    } else if d == 7 {
        '7'
    } else if d == 8 {
        '8'
    } else if d == 9 {
        '9'
    } else if d == 10 {
        'a'
    } else if d == 11 {
        'b'
    } else if d == 12 {
        'c'
    } else if d == 13 {
        'd'
    } else if d == 14 {
        'e'
    } else {
        'f'
    }
}

fn digit_of(d: u64) -> (c: char)
    requires
        d < 16,
    ensures
        c == digit_char(d as int),
{
    if d == 0 {
        '0'
    } else if d == 1 {
        '1'
    } else if d == 2 {
        '2'
    } else if d == 3 {
        '3'
    } else if d == 4 {
        '4'
    } else if d == 5 {
        '5'
    } else if d == 6 {
        '6'
    } else if d == 7 {
        '7'
    } else if d == 8 {
        '8'
    } else if d == 9 {
        '9'
    } else if d == 10 {
        'a'
    } else if d == 11 {
        'b'
    } else if d == 12 {
        'c'
    } else if d == 13 {
        'd'
    } else if d == 14 {
        'e'
    } else {
        'f'
    }
}

/// The digits of `n` in base `b` (2 to 16), most significant first, with
/// no leading zeros (`"0"` for zero).
pub open spec fn spec_digits(n: nat, b: nat) -> Seq<char>
    decreases n,
{
    if b < 2 || n < b {
        seq![digit_char(n as int)]
    } else {
        proof {
            assert(n / b < n) by (nonlinear_arith)
                requires
                    b >= 2,
                    n >= b,
            ;
        }
        spec_digits(n / b, b).push(digit_char((n % b) as int))
    }
}

/// `n` in decimal, as `u64`'s `Display` writes it.
pub open spec fn spec_decimal(n: nat) -> Seq<char> {
    spec_digits(n, 10)
}

/// Appends the digits of `n` in base `b`.
pub(crate) fn push_digits(s: &mut String, n: u64, b: u64)
    requires
        2 <= b <= 16,
    ensures
        final(s)@ == old(s)@ + spec_digits(n as nat, b as nat),
    decreases n,
{
    if n >= b {
        push_digits(s, n / b, b);
        push_char(s, digit_of(n % b));
        proof {
            assert(final(s)@ =~= old(s)@ + spec_digits(n as nat, b as nat));
        }
    } else {
        push_char(s, digit_of(n));
        proof {
            assert(final(s)@ =~= old(s)@ + spec_digits(n as nat, b as nat));
        }
    }
}

/// `t` left-padded with `'0'` to at least `w` characters.
pub open spec fn zero_pad(t: Seq<char>, w: nat) -> Seq<char> {
    if t.len() >= w {
        t
    } else {
        Seq::new((w - t.len()) as nat, |i: int| '0') + t
    }
}

/// Appends `n` in base `b`, left-padded with zeros to `w` digits.
pub(crate) fn push_padded(s: &mut String, n: u64, b: u64, w: usize)
    requires
        2 <= b <= 16,
    ensures
        final(s)@ == old(s)@ + zero_pad(spec_digits(n as nat, b as nat), w as nat),
{
    let mut digits = String::new();
    push_digits(&mut digits, n, b);
    proof {
        assert(digits@ =~= spec_digits(n as nat, b as nat));
    }
    let len = digits.unicode_len();
    let ghost s0 = s@;
    if len < w {
        let mut k: usize = 0;
        while k < w - len
            invariant
                k <= w - len,
                s@ == s0 + Seq::new(k as nat, |i: int| '0'),
            decreases w - len - k,
        {
            push_char(s, '0');
            k += 1;
            proof {
                assert(s@ =~= s0 + Seq::new(k as nat, |i: int| '0'));
            }
        }
    }
    push_str(s, digits.as_str());
    proof {
        assert(s@ =~= s0 + zero_pad(spec_digits(n as nat, b as nat), w as nat));
    }
}

/// The magnitude of `v`.
pub open spec fn abs_int(v: int) -> int {
    if v < 0 {
        -v
    } else {
        v
    }
}

fn magnitude(v: i64) -> (r: u64)
    ensures
        r == abs_int(v as int),
{
    if v < 0 {
        ((-(v + 1)) as u64) + 1
    } else {
        v as u64
    }
}

/// `nm` nanometres as millimetres with exactly six decimals, as
/// `format!("{:.6}", nm as f64 / 1e6)` writes it for coordinates.
pub open spec fn spec_mm6(nm: int) -> Seq<char> {
    let a = abs_int(nm);
    (if nm < 0 {
        seq!['-']
    } else {
        Seq::empty()
    }) + spec_decimal((a / 1_000_000) as nat) + seq!['.'] + zero_pad(spec_decimal((a % 1_000_000) as nat), 6)
}

/// Appends `nm` nanometres as millimetres with six decimals.
pub(crate) fn push_mm6(s: &mut String, nm: i64)
    ensures
        final(s)@ == old(s)@ + spec_mm6(nm as int),
{
    let ghost s0 = s@;
    let a = magnitude(nm);
    if nm < 0 {
        push_char(s, '-');
    }
    push_digits(s, a / 1_000_000, 10);
    push_char(s, '.');
    push_padded(s, a % 1_000_000, 10, 6);
    proof {
        assert(s@ =~= s0 + spec_mm6(nm as int));
    }
}

/// `t` without its trailing `'0'` characters.
pub open spec fn trim_zeros(t: Seq<char>) -> Seq<char>
    decreases t.len(),
{
    if t.len() > 0 && t.last() == '0' {
        trim_zeros(t.drop_last())
    } else {
        t
    }
}

/// `nm` nanometres as millimetres in the shortest form, as `f64`'s
/// `Display` writes `nm as f64 / 1e6` for lengths: no trailing zeros, no
/// point for a whole number.
pub open spec fn spec_mm_short(nm: int) -> Seq<char> {
    let a = abs_int(nm);
    let frac = a % 1_000_000;
    (if nm < 0 {
        seq!['-']
    } else {
        Seq::empty()
    }) + spec_decimal((a / 1_000_000) as nat) + if frac == 0 {
        Seq::empty()
    } else {
        seq!['.'] + trim_zeros(zero_pad(spec_decimal(frac as nat), 6))
    }
}

/// Appends `nm` nanometres as millimetres in the shortest form.
pub(crate) fn push_mm_short(s: &mut String, nm: i64)
    ensures
        final(s)@ == old(s)@ + spec_mm_short(nm as int),
{
    let ghost s0 = s@;
    let a = magnitude(nm);
    if nm < 0 {
        push_char(s, '-');
    }
    push_digits(s, a / 1_000_000, 10);
    let frac = a % 1_000_000;
    if frac != 0 {
        let mut f = String::new();
        push_padded(&mut f, frac, 10, 6);
        let v = chars_of(f.as_str());
        let mut end = v.len();
        proof {
            assert(v@.subrange(0, end as int) =~= v@);
        }
        while end > 0 && v[end - 1] == '0'
            invariant
                end <= v@.len(),
                trim_zeros(v@) == trim_zeros(v@.subrange(0, end as int)),
            decreases end,
        {
            proof {
                assert(v@.subrange(0, end as int).drop_last() =~= v@.subrange(0, end - 1));
            }
            end -= 1;
        }
        proof {
            assert(trim_zeros(v@.subrange(0, end as int)) == v@.subrange(0, end as int));
            assert(v@.subrange(0, v@.len() as int) =~= v@);
        }
        push_char(s, '.');
        let t = string_from(&v, 0, end);
        push_str(s, t.as_str());
    }
    proof {
        assert(s@ =~= s0 + spec_mm_short(nm as int));
    }
}

proof fn lemma_digit_char(d: int)
    requires
        0 <= d < 10,
    ensures
        is_digit(digit_char(d)),
        digit_value(digit_char(d)) == d,
        digit_char(d) != '.',
{
}

/// The decimal digits of `n` are digits, read back as `n`, and hold no
/// point; fewer than `k` of them where `n < 10^k`.
pub proof fn lemma_decimal(n: nat)
    ensures
        all_digits(spec_decimal(n)),
        digits_value(spec_decimal(n)) == n,
        spec_decimal(n).len() >= 1,
        forall|k: nat| n < pow10_spec(k as int) && k >= 1 ==> spec_decimal(n).len() <= k,
    decreases n,
{
    if n < 10 {
        lemma_digit_char(n as int);
        assert(spec_decimal(n) =~= seq![digit_char(n as int)]);
        assert(spec_decimal(n).drop_last() =~= Seq::<char>::empty());
        assert(spec_decimal(n).last() == digit_char(n as int));
        assert(digits_value(spec_decimal(n)) == digits_value(Seq::<char>::empty()) * 10 + digit_value(digit_char(n as int)));
    } else {
        lemma_decimal(n / 10);
        lemma_digit_char((n % 10) as int);
        let t = spec_decimal(n);
        assert(t.drop_last() =~= spec_decimal(n / 10));
        assert(t.last() == digit_char((n % 10) as int));
        assert(digits_value(t) == digits_value(spec_decimal(n / 10)) * 10 + digit_value(digit_char((n % 10) as int)));
        assert((n / 10) * 10 + n % 10 == n);
        assert forall|k: nat| n < pow10_spec(k as int) && k >= 1 implies spec_decimal(n).len() <= k by {
            if k == 1 {
                reveal_with_fuel(pow10_spec, 2);
            } else {
                assert(pow10_spec(k as int) == 10 * pow10_spec(k - 1));
                assert(n / 10 < pow10_spec(k - 1)) by (nonlinear_arith)
                    requires
                        n < 10 * pow10_spec(k - 1),
                ;
            }
        }
    }
}

/// Leading zeros do not change a digit run's value.
proof fn lemma_leading_zeros(z: nat, t: Seq<char>)
    ensures
        digits_value(Seq::new(z, |i: int| '0') + t) == digits_value(t),
    decreases t.len(), z,
{
    let zs = Seq::new(z, |i: int| '0');
    if t.len() == 0 {
        assert(zs + t =~= zs);
        if z > 0 {
            assert(zs.drop_last() =~= Seq::new((z - 1) as nat, |i: int| '0'));
            lemma_leading_zeros((z - 1) as nat, t);
            assert(Seq::new((z - 1) as nat, |i: int| '0') + t =~= Seq::new((z - 1) as nat, |i: int| '0'));
        }
    } else {
        assert((zs + t).drop_last() =~= zs + t.drop_last());
        lemma_leading_zeros(z, t.drop_last());
    }
}

proof fn lemma_frac_is_value(f: Seq<char>, k: int)
    requires
        0 <= k <= f.len(),
    ensures
        frac_millionths(f, k) == digits_value(f.subrange(0, k)),
    decreases k,
{
    if k > 0 {
        lemma_frac_is_value(f, k - 1);
        assert(f.subrange(0, k).drop_last() =~= f.subrange(0, k - 1));
    }
}

/// Six decimals of millimetres read back as the nanometres they were
/// written from: parsing what `spec_mm6` writes gives the value back.
pub proof fn lemma_mm6_parses_back(nm: i64)
    ensures
        spec_parse_mm_nm(spec_mm6(nm as int)) == Some(nm),
{
    lemma_mm6_plain(nm);
    let a = abs_int(nm as int);
    let ip = spec_decimal((a / 1_000_000) as nat);
    let dr = spec_decimal((a % 1_000_000) as nat);
    lemma_decimal((a / 1_000_000) as nat);
    lemma_decimal((a % 1_000_000) as nat);
    let s = spec_mm6(nm as int);
    let body = if s.len() > 0 && (s[0] == '-' || s[0] == '+') {
        s.drop_first()
    } else {
        s
    };
    assert forall|j: int| 0 <= j < s.len() implies s[j] != 'e' && s[j] != 'E' by {
        let sg: Seq<char> = if nm < 0 { seq!['-'] } else { Seq::empty() };
        let zs = Seq::new((6 - dr.len()) as nat, |i: int| '0');
        assert(s =~= sg + ip + seq!['.'] + zero_pad(dr, 6));
        if j >= sg.len() && j < sg.len() + ip.len() {
            assert(s[j] == ip[j - sg.len()]);
            assert(is_digit(ip[j - sg.len()]));
        } else if j >= sg.len() + ip.len() + 1 {
            let x = j - sg.len() - ip.len() - 1;
            assert(s[j] == zero_pad(dr, 6)[x]);
            if dr.len() < 6 {
                if x >= zs.len() {
                    assert(zero_pad(dr, 6)[x] == dr[x - zs.len()]);
                    assert(is_digit(dr[x - zs.len()]));
                }
            } else {
                assert(is_digit(dr[x]));
            }
        }
    }
    assert forall|j: int| 0 <= j < body.len() implies body[j] != 'e' && body[j] != 'E' by {
        if s.len() > 0 && (s[0] == '-' || s[0] == '+') {
            assert(body[j] == s[j + 1]);
        }
    }
    lemma_exp_index_found(body, body.len() as int);
}

proof fn lemma_mm6_plain(nm: i64)
    ensures
        spec_parse_plain_mm(spec_mm6(nm as int)) == Some(nm),
{
    reveal(spec_parse_plain_mm);
    let a = abs_int(nm as int);
    let q = (a / 1_000_000) as nat;
    let r = (a % 1_000_000) as nat;
    let ip = spec_decimal(q);
    let dr = spec_decimal(r);
    lemma_decimal(q);
    lemma_decimal(r);
    reveal_with_fuel(pow10_spec, 7);
    assert(r < pow10_spec(6));
    assert(dr.len() <= 6);
    let f = zero_pad(dr, 6);
    let zs = Seq::new((6 - dr.len()) as nat, |i: int| '0');
    assert(f == zs + dr);
    assert(f.len() == 6);
    assert(all_digits(f)) by {
        assert forall|i: int| 0 <= i < f.len() implies is_digit(#[trigger] f[i]) by {
            if i >= zs.len() {
                assert(f[i] == dr[i - zs.len()]);
            }
        }
    }
    lemma_leading_zeros((6 - dr.len()) as nat, dr);
    lemma_frac_is_value(f, 6);
    assert(f.subrange(0, 6) =~= f);
    let body = ip + seq!['.'] + f;
    let s = spec_mm6(nm as int);
    assert(s == (if nm < 0 { seq!['-'] } else { Seq::empty() }) + body) by {
        assert(s =~= (if nm < 0 { seq!['-'] } else { Seq::empty() }) + body);
    }
    let b2 = if s.len() > 0 && (s[0] == '-' || s[0] == '+') {
        s.drop_first()
    } else {
        s
    };
    assert(b2 =~= body) by {
        if nm < 0 {
            assert(s[0] == '-');
            assert(s.drop_first() =~= body);
        } else {
            assert(s =~= body);
            assert(ip[0] != '-' && ip[0] != '+') by {
                assert(is_digit(ip[0]));
            }
            assert(s[0] == ip[0]);
        }
    }
    assert forall|j: int| 0 <= j < ip.len() implies ip[j] != '.' by {
        assert(is_digit(ip[j]));
    }
    lemma_index_of_found(b2, '.', ip.len() as int);
    assert(b2.subrange(0, ip.len() as int) =~= ip);
    assert(b2.subrange(ip.len() as int + 1, b2.len() as int) =~= f);
    assert(q * 1_000_000 + r == a) by (nonlinear_arith)
        requires
            q == a / 1_000_000,
            r == a % 1_000_000,
            a >= 0,
    ;
}

} // verus!
