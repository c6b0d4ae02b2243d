//! Classification of override values: decimal numbers and symbolic words.
//!
//! A value is numeric when it is a floating-point literal in the syntax that
//! `f64`'s `FromStr` documents (an optional sign, then `inf`, `infinity`,
//! `nan` in any case, or digits with at most one `.` and an optional
//! exponent); any other value is symbolic.
use vstd::prelude::*;

verus! {

pub open spec fn is_digit(c: char) -> bool {
    '0' <= c && c <= '9'
}

pub open spec fn is_sign(c: char) -> bool {
    c == '+' || c == '-'
}

pub open spec fn is_exp_mark(c: char) -> bool {
    c == 'e' || c == 'E'
}

/// The ASCII upper case of a character; other characters stay.
pub open spec fn ascii_upper(c: char) -> char {
    if 'a' <= c && c <= 'z' {
        (((c as u8) - 32) as u8) as char
    } else {
        c
    }
}

pub open spec fn count_digits(s: Seq<char>) -> nat
    decreases s.len(),
{
    if s.len() == 0 {
        0
    } else {
        count_digits(s.drop_last()) + if is_digit(s.last()) {
            1nat
        } else {
            0nat
        }
    }
}

pub open spec fn count_dots(s: Seq<char>) -> nat
    decreases s.len(),
{
    if s.len() == 0 {
        0
    } else {
        count_dots(s.drop_last()) + if s.last() == '.' {
            1nat
        } else {
            0nat
        }
    }
}

/// Digits with at most one `.` among them, and at least one digit.
pub open spec fn is_mantissa(m: Seq<char>) -> bool {
    count_digits(m) + count_dots(m) == m.len() && count_dots(m) <= 1 && count_digits(m) >= 1
}

/// An optional sign, then one or more digits.
pub open spec fn is_exponent(x: Seq<char>) -> bool {
    let d = if x.len() > 0 && is_sign(x[0]) {
        x.drop_first()
    } else {
        x
    };
    d.len() >= 1 && count_digits(d) == d.len()
}

/// Position of the first exponent mark, or the length if there is none.
pub open spec fn first_exp_mark(b: Seq<char>) -> int
    decreases b.len(),
{
    if b.len() == 0 {
        0
    } else if is_exp_mark(b[0]) {
        0
    } else {
        1 + first_exp_mark(b.drop_first())
    }
}

pub open spec fn is_number(b: Seq<char>) -> bool {
    let p = first_exp_mark(b);
    if p == b.len() {
        is_mantissa(b)
    } else {
        is_mantissa(b.take(p)) && is_exponent(b.skip(p + 1))
    }
}

/// `b` is the lower-case word `w` in any mix of cases.
pub open spec fn matches_word(b: Seq<char>, w: Seq<char>) -> bool {
    b.len() == w.len() && forall|i: int| 0 <= i < b.len() ==> b[i] == w[i] || b[i] == ascii_upper(w[i])
}

pub open spec fn unsigned_part(s: Seq<char>) -> Seq<char> {
    if s.len() > 0 && is_sign(s[0]) {
        s.drop_first()
    } else {
        s
    }
}

/// `s` is a floating-point literal.
pub open spec fn is_float_text(s: Seq<char>) -> bool {
    let b = unsigned_part(s);
    matches_word(b, seq!['i', 'n', 'f']) || matches_word(
        b,
        seq!['i', 'n', 'f', 'i', 'n', 'i', 't', 'y'],
    ) || matches_word(b, seq!['n', 'a', 'n']) || is_number(b)
}

fn chars_of(s: &str) -> (r: Vec<char>)
    ensures
        r@ == s@,
{
    let n = s.unicode_len();
    let mut r: Vec<char> = Vec::new();
    let mut i: usize = 0;
    while i < n
        invariant
            n == s@.len(),
            i <= n,
            r@ == s@.subrange(0, i as int),
        decreases n - i,
    {
        r.push(s.get_char(i));
        assert(r@ =~= s@.subrange(0, i + 1));
        i += 1;
    }
    assert(s@.subrange(0, n as int) =~= s@);
    r
}

fn is_digit_char(c: char) -> (r: bool)
    ensures
        r == is_digit(c),
{
    '0' <= c && c <= '9'
}

pub fn upper_char(c: char) -> (r: char)
    ensures
        r == ascii_upper(c),
{
    if 'a' <= c && c <= 'z' {
        (((c as u8) - 32) as u8) as char
    } else {
        c
    }
}

fn counts_in(cs: &Vec<char>, lo: usize, hi: usize) -> (r: (usize, usize))
    requires
        lo <= hi <= cs@.len(),
    ensures
        r.0 == count_digits(cs@.subrange(lo as int, hi as int)),
        r.1 == count_dots(cs@.subrange(lo as int, hi as int)),
        r.0 + r.1 <= hi - lo,
{
    let mut digits: usize = 0;
    let mut dots: usize = 0;
    let mut i: usize = lo;
    assert(cs@.subrange(lo as int, lo as int).len() == 0);
    while i < hi
        invariant
            lo <= i <= hi <= cs@.len(),
            digits == count_digits(cs@.subrange(lo as int, i as int)),
            dots == count_dots(cs@.subrange(lo as int, i as int)),
            digits + dots <= i - lo,
        decreases hi - i,
    {
        assert(cs@.subrange(lo as int, i + 1).drop_last() =~= cs@.subrange(lo as int, i as int));
        if is_digit_char(cs[i]) {
            digits += 1;
        } else if cs[i] == '.' {
            dots += 1;
        }
        i += 1;
    }
    (digits, dots)
}

fn is_mantissa_in(cs: &Vec<char>, lo: usize, hi: usize) -> (r: bool)
    requires
        lo <= hi <= cs@.len(),
    ensures
        r == is_mantissa(cs@.subrange(lo as int, hi as int)),
{
    let (digits, dots) = counts_in(cs, lo, hi);
    digits + dots == hi - lo && dots <= 1 && digits >= 1
}

fn is_exponent_in(cs: &Vec<char>, lo: usize, hi: usize) -> (r: bool)
    requires
        lo <= hi <= cs@.len(),
    ensures
        r == is_exponent(cs@.subrange(lo as int, hi as int)),
{
    let ghost x = cs@.subrange(lo as int, hi as int);
    let start = if lo < hi && (cs[lo] == '+' || cs[lo] == '-') {
        assert(x.drop_first() =~= cs@.subrange(lo + 1, hi as int));
        lo + 1
    } else {
        lo
    };
    let (digits, _dots) = counts_in(cs, start, hi);
    hi - start >= 1 && digits == hi - start
}

fn matches_word_in(cs: &Vec<char>, lo: usize, w: &Vec<char>) -> (r: bool)
    requires
        lo <= cs@.len(),
    ensures
        r == matches_word(cs@.subrange(lo as int, cs@.len() as int), w@),
{
    let b = Ghost(cs@.subrange(lo as int, cs@.len() as int));
    if cs.len() - lo != w.len() {
        return false;
    }
    let mut i: usize = 0;
    while i < w.len()
        invariant
            b@ == cs@.subrange(lo as int, cs@.len() as int),
            b@.len() == w@.len(),
            lo + w@.len() == cs@.len(),
            cs@.len() <= usize::MAX,
            i <= w@.len(),
            forall|j: int| 0 <= j < i ==> b@[j] == w@[j] || b@[j] == ascii_upper(w@[j]),
        decreases w@.len() - i,
    {
        let c = cs[lo + i];
        if !(c == w[i] || c == upper_char(w[i])) {
            assert(b@[i as int] == c);
            return false;
        }
        i += 1;
    }
    true
}

fn first_exp_mark_in(cs: &Vec<char>, lo: usize) -> (r: usize)
    requires
        lo <= cs@.len(),
    ensures
        lo <= r <= cs@.len(),
        r - lo == first_exp_mark(cs@.subrange(lo as int, cs@.len() as int)),
{
    let n = cs.len();
    let mut i: usize = lo;
    while i < n && !(cs[i] == 'e' || cs[i] == 'E')
        invariant
            n == cs@.len(),
            lo <= i <= n,
            first_exp_mark(cs@.subrange(lo as int, n as int)) == (i - lo) + first_exp_mark(
                cs@.subrange(i as int, n as int),
            ),
        decreases n - i,
    {
        assert(cs@.subrange(i as int, n as int).drop_first() =~= cs@.subrange(i + 1, n as int));
        i += 1;
    }
    i
}

/// Whether `s` is a floating-point literal.
pub fn float_text(s: &str) -> (r: bool)
    ensures
        r == is_float_text(s@),
{
    let cs = chars_of(s);
    let n = cs.len();
    let lo: usize = if n > 0 && (cs[0] == '+' || cs[0] == '-') {
        1
    } else {
        0
    };
    let ghost b = cs@.subrange(lo as int, n as int);
    assert(b =~= unsigned_part(s@));
    let inf = vec!['i', 'n', 'f'];
    let infinity = vec!['i', 'n', 'f', 'i', 'n', 'i', 't', 'y'];
    let nan = vec!['n', 'a', 'n'];
    if matches_word_in(&cs, lo, &inf) || matches_word_in(&cs, lo, &infinity) || matches_word_in(
        &cs,
        lo,
        &nan,
    ) {
        return true;
    }
    let p = first_exp_mark_in(&cs, lo);
    if p == n {
        is_mantissa_in(&cs, lo, n)
    } else {
        assert(b.take(p - lo) =~= cs@.subrange(lo as int, p as int));
        assert(b.skip(p - lo + 1) =~= cs@.subrange(p + 1, n as int));
        is_mantissa_in(&cs, lo, p) && is_exponent_in(&cs, p + 1, n)
    }
}

} // verus!
