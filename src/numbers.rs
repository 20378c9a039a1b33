//! Which texts read as numbers: 64-bit signed integers, and the float
//! syntax that `f64`'s `FromStr` accepts.

use vstd::prelude::*;

use crate::text::chars_of;

verus! {

pub open spec fn is_digit(c: char) -> bool {
    '0' <= c <= '9'
}

/// Every character is an ASCII digit.
pub open spec fn digits_only(s: Seq<char>) -> bool {
    forall|i: int| 0 <= i < s.len() ==> is_digit(#[trigger] s[i])
}

/// The value of a string of decimal digits.
pub open spec fn digits_value(s: Seq<char>) -> int
    decreases s.len(),
{
    if s.len() == 0 {
        0
    } else {
        10 * digits_value(s.drop_last()) + (s.last() as int - '0' as int)
    }
}

pub open spec fn is_sign(c: char) -> bool {
    c == '+' || c == '-'
}

/// The text without a leading sign.
pub open spec fn unsigned_part(s: Seq<char>) -> Seq<char> {
    if s.len() > 0 && is_sign(s[0]) {
        s.skip(1)
    } else {
        s
    }
}

/// The integer that a text denotes: an optional sign followed by one or
/// more digits.
pub open spec fn integer_value(s: Seq<char>) -> Option<int> {
    let d = unsigned_part(s);
    if d.len() > 0 && digits_only(d) {
        if s[0] == '-' {
            Some(-digits_value(d))
        } else {
            Some(digits_value(d))
        }
    } else {
        None
    }
}

/// The `i64` that a text denotes, if it denotes one in range.
pub open spec fn i64_value(s: Seq<char>) -> Option<int> {
    match integer_value(s) {
        Some(v) => if i64::MIN <= v <= i64::MAX {
            Some(v)
        } else {
            None
        },
        None => None,
    }
}

/// Relies on `<i64 as FromStr>::from_str`: an optional `+` or `-` followed
/// by decimal digits, whose value fits in 64 bits; anything else fails.
#[verifier::external_body]
pub(crate) fn parse_i64(s: &str) -> (r: Option<i64>)
    ensures
        match r {
            Some(n) => i64_value(s@) == Some(n as int),
            None => i64_value(s@).is_none(),
        },
{
    s.parse::<i64>().ok()
}

/// Whether `c` is the lower-case letter `t` or its upper-case form.
pub open spec fn letter_matches(c: char, t: char) -> bool {
    c == t || (c as u32) + 32 == (t as u32)
}

/// Whether a text spells the lower-case word `t` in any case.
pub open spec fn same_ignoring_case(s: Seq<char>, t: Seq<char>) -> bool {
    s.len() == t.len() && forall|i: int| 0 <= i < s.len() ==> letter_matches(#[trigger] s[i], t[i])
}

/// The first index in `s` holding `a` or `b`, or the length if none does.
pub open spec fn first_of(s: Seq<char>, a: char, b: char) -> int
    decreases s.len(),
{
    if s.len() == 0 {
        0
    } else if s[0] == a || s[0] == b {
        0
    } else {
        1 + first_of(s.skip(1), a, b)
    }
}

/// `Digit+ | Digit+ '.' Digit* | Digit* '.' Digit+`
pub open spec fn mantissa_ok(m: Seq<char>) -> bool {
    let d = first_of(m, '.', '.');
    if d == m.len() {
        m.len() > 0 && digits_only(m)
    } else {
        digits_only(m.take(d)) && digits_only(m.skip(d + 1)) && m.len() > 1
    }
}

/// `Sign? Digit+`
pub open spec fn exponent_ok(x: Seq<char>) -> bool {
    let y = unsigned_part(x);
    y.len() > 0 && digits_only(y)
}

/// `inf`, `infinity` or `nan`, in any case.
pub open spec fn special_float(b: Seq<char>) -> bool {
    same_ignoring_case(b, seq!['i', 'n', 'f']) || same_ignoring_case(
        b,
        seq!['i', 'n', 'f', 'i', 'n', 'i', 't', 'y'],
    ) || same_ignoring_case(b, seq!['n', 'a', 'n'])
}

/// Whether a text is in the syntax that `f64`'s `FromStr` accepts:
/// `Sign? ('inf' | 'infinity' | 'nan' | Number)` with
/// `Number ::= Mantissa ('e' Sign? Digit+)?`, case-insensitively.
pub open spec fn float_syntax(s: Seq<char>) -> bool {
    let b = unsigned_part(s);
    if special_float(b) {
        true
    } else {
        let e = first_of(b, 'e', 'E');
        if e == b.len() {
            mantissa_ok(b)
        } else {
            mantissa_ok(b.take(e)) && exponent_ok(b.skip(e + 1))
        }
    }
}

fn letter_check(c: char, t: char) -> (r: bool)
    ensures
        r == letter_matches(c, t),
{
    c == t || (c as u32) + 32 == (t as u32)
}

fn matches_ignoring_case(s: &Vec<char>, from: usize, t: &Vec<char>) -> (r: bool)
    requires
        from <= s.len(),
    ensures
        r == same_ignoring_case(s@.skip(from as int), t@),
{
    if s.len() - from != t.len() {
        return false;
    }
    let mut i: usize = 0;
    while i < t.len()
        invariant
            from <= s.len(),
            s.len() - from == t.len(),
            i <= t.len(),
            forall|j: int| 0 <= j < i ==> letter_matches(s@.skip(from as int)[j], t@[j]),
        decreases t.len() - i,
    {
        if !letter_check(s[from + i], t[i]) {
            assert(!letter_matches(s@.skip(from as int)[i as int], t@[i as int]));
            return false;
        }
        i = i + 1;
    }
    true
}

fn first_index_of(s: &Vec<char>, from: usize, to: usize, a: char, b: char) -> (r: usize)
    requires
        from <= to <= s.len(),
    ensures
        from <= r <= to,
        r - from == first_of(s@.subrange(from as int, to as int), a, b),
    decreases to - from,
{
    if from == to {
        return from;
    }
    let ghost sub = s@.subrange(from as int, to as int);
    assert(sub[0] == s@[from as int]);
    if s[from] == a || s[from] == b {
        return from;
    }
    assert(sub.skip(1) == s@.subrange(from + 1, to as int));
    first_index_of(s, from + 1, to, a, b)
}

fn all_digits(s: &Vec<char>, from: usize, to: usize) -> (r: bool)
    requires
        from <= to <= s.len(),
    ensures
        r == digits_only(s@.subrange(from as int, to as int)),
{
    let mut i: usize = from;
    while i < to
        invariant
            from <= i <= to <= s.len(),
            forall|j: int| from <= j < i ==> is_digit(s@[j]),
        decreases to - i,
    {
        if !('0' <= s[i] && s[i] <= '9') {
            assert(!is_digit(s@.subrange(from as int, to as int)[i - from]));
            return false;
        }
        i = i + 1;
    }
    assert forall|j: int| 0 <= j < to - from implies is_digit(
        #[trigger] s@.subrange(from as int, to as int)[j],
    ) by {
        assert(s@.subrange(from as int, to as int)[j] == s@[from + j]);
    }
    true
}

fn mantissa_check(s: &Vec<char>, from: usize, to: usize) -> (r: bool)
    requires
        from <= to <= s.len(),
    ensures
        r == mantissa_ok(s@.subrange(from as int, to as int)),
{
    let ghost m = s@.subrange(from as int, to as int);
    let d = first_index_of(s, from, to, '.', '.');
    if d == to {
        to > from && all_digits(s, from, to)
    } else {
        assert(m.take(d - from) == s@.subrange(from as int, d as int));
        assert(m.skip(d - from + 1) == s@.subrange(d + 1, to as int));
        all_digits(s, from, d) && all_digits(s, d + 1, to) && to - from > 1
    }
}

/// Whether `s` reads as an `f64`, by the syntax that `f64`'s `FromStr`
/// documents.
pub fn is_float_text(s: &str) -> (r: bool)
    ensures
        r == float_syntax(s@),
{
    let cs = chars_of(s);
    let n = cs.len();
    let start: usize = if n > 0 && (cs[0] == '+' || cs[0] == '-') {
        1
    } else {
        0
    };
    let ghost b = unsigned_part(s@);
    assert(b == cs@.subrange(start as int, n as int));
    assert(b == cs@.skip(start as int));
    let inf = vec!['i', 'n', 'f'];
    let infinity = vec!['i', 'n', 'f', 'i', 'n', 'i', 't', 'y'];
    let nan = vec!['n', 'a', 'n'];
    if matches_ignoring_case(&cs, start, &inf) || matches_ignoring_case(&cs, start, &infinity)
        || matches_ignoring_case(&cs, start, &nan) {
        return true;
    }
    let e = first_index_of(&cs, start, n, 'e', 'E');
    if e == n {
        mantissa_check(&cs, start, n)
    } else {
        assert(b.take(e - start) == cs@.subrange(start as int, e as int));
        let ghost x = b.skip(e - start + 1);
        assert(x == cs@.subrange(e + 1, n as int));
        let xs: usize = if e + 1 < n && (cs[e + 1] == '+' || cs[e + 1] == '-') {
            e + 2
        } else {
            e + 1
        };
        assert(unsigned_part(x) == cs@.subrange(xs as int, n as int));
        mantissa_check(&cs, start, e) && xs < n && all_digits(&cs, xs, n)
    }
}

} // verus!
