//! Recognition of numeric literals: the text that parses as a
//! floating-point number (an optional sign, then `inf`, `infinity` or `nan`
//! in any case, or decimal digits with at most one point and an optional
//! exponent).
use vstd::prelude::*;
use crate::names::names_match;

verus! {

pub open spec fn is_digit(c: char) -> bool {
    '0' <= c && c <= '9'
}

pub open spec fn is_sign(c: char) -> bool {
    c == '+' || c == '-'
}

pub open spec fn is_exponent_mark(c: char) -> bool {
    c == 'e' || c == 'E'
}

pub open spec fn all_digits(s: Seq<char>) -> bool {
    forall|i: int| 0 <= i < s.len() ==> is_digit(#[trigger] s[i])
}

pub open spec fn count_points(s: Seq<char>) -> int
    decreases s.len(),
{
    if s.len() == 0 {
        0
    } else {
        count_points(s.drop_last()) + if s.last() == '.' {
            1int
        } else {
            0int
        }
    }
}

pub open spec fn count_digits(s: Seq<char>) -> int
    decreases s.len(),
{
    if s.len() == 0 {
        0
    } else {
        count_digits(s.drop_last()) + if is_digit(s.last()) {
            1int
        } else {
            0int
        }
    }
}

/// Digits with at most one decimal point, and at least one digit.
pub open spec fn is_mantissa(s: Seq<char>) -> bool {
    &&& forall|i: int| 0 <= i < s.len() ==> is_digit(#[trigger] s[i]) || s[i] == '.'
    &&& count_points(s) <= 1
    &&& count_digits(s) >= 1
}

/// Drops one leading sign.
pub open spec fn unsigned(s: Seq<char>) -> Seq<char> {
    if s.len() > 0 && is_sign(s[0]) {
        s.drop_first()
    } else {
        s
    }
}

/// An exponent mark, an optional sign and at least one digit.
pub open spec fn is_exponent(s: Seq<char>) -> bool {
    s.len() > 0 && is_exponent_mark(s[0]) && unsigned(s.drop_first()).len() > 0 && all_digits(
        unsigned(s.drop_first()),
    )
}

/// The index of the first exponent mark of `s`, or its length.
pub open spec fn exponent_at(s: Seq<char>) -> int
    decreases s.len(),
{
    if s.len() == 0 {
        0
    } else if is_exponent_mark(s[0]) {
        0
    } else {
        1 + exponent_at(s.drop_first())
    }
}

pub open spec fn is_decimal(s: Seq<char>) -> bool {
    let m = exponent_at(s);
    is_mantissa(s.subrange(0, m)) && (m == s.len() || is_exponent(s.subrange(m, s.len() as int)))
}

pub open spec fn is_special(s: Seq<char>) -> bool {
    names_match(s, seq!['i', 'n', 'f']) || names_match(s, seq!['i', 'n', 'f', 'i', 'n', 'i', 't', 'y'])
        || names_match(s, seq!['n', 'a', 'n'])
}

/// The text of a floating-point number.
pub open spec fn is_number(s: Seq<char>) -> bool {
    is_special(unsigned(s)) || is_decimal(unsigned(s))
}

proof fn lemma_exponent_at_first(s: Seq<char>, m: int)
    requires
        0 <= m <= s.len(),
        forall|k: int| 0 <= k < m ==> !is_exponent_mark(#[trigger] s[k]),
        m < s.len() ==> is_exponent_mark(s[m]),
    ensures
        exponent_at(s) == m,
    decreases s.len(),
{
    if s.len() > 0 && m > 0 {
        assert(!is_exponent_mark(s[0]));
        assert forall|k: int| 0 <= k < m - 1 implies !is_exponent_mark(#[trigger] s.drop_first()[k]) by {
            assert(s.drop_first()[k] == s[k + 1]);
        }
        lemma_exponent_at_first(s.drop_first(), m - 1);
    }
}

fn chars_of(s: &str) -> (r: Vec<char>)
    ensures
        r@ == s@,
{
    let n = s.unicode_len();
    let mut r: Vec<char> = Vec::new();
    let mut i: usize = 0;
    while i < n
        invariant
            n == s@.len(),
            i <= n,
            r@ == s@.subrange(0, i as int),
        decreases n - i,
    {
        r.push(s.get_char(i));
        i = i + 1;
        assert(r@ =~= s@.subrange(0, i as int));
    }
    assert(r@ =~= s@);
    r
}

fn matches_word(s: &Vec<char>, from: usize, word: &Vec<char>) -> (r: bool)
    requires
        from <= s@.len(),
    ensures
        r == names_match(s@.subrange(from as int, s@.len() as int), word@),
{
    let n = s.len();
    if n - from != word.len() {
        return false;
    }
    let mut i: usize = 0;
    while i < word.len()
        invariant
            from <= s@.len(),
            n == s@.len(),
            s@.len() - from == word@.len(),
            i <= word@.len(),
            forall|k: int| 0 <= k < i ==> crate::names::same_letter(#[trigger] s@[from + k], word@[k]),
        decreases word.len() - i,
    {
        if !crate::names::same_letter_exec(s[from + i], word[i]) {
            assert(s@.subrange(from as int, s@.len() as int)[i as int] == s@[from + i]);
            return false;
        }
        i = i + 1;
    }
    let ghost t = s@.subrange(from as int, s@.len() as int);
    assert forall|k: int| 0 <= k < t.len() implies crate::names::same_letter(#[trigger] t[k], word@[k]) by {
        assert(t[k] == s@[from + k]);
    }
    true
}

/// Whether `s[from..to]` holds digits and points only, at most one point
/// and at least one digit.
fn check_mantissa(s: &Vec<char>, from: usize, to: usize) -> (r: bool)
    requires
        from <= to <= s@.len(),
    ensures
        r == is_mantissa(s@.subrange(from as int, to as int)),
{
    let ghost t = s@.subrange(from as int, to as int);
    let mut points: usize = 0;
    let mut digits: usize = 0;
    let mut i: usize = from;
    while i < to
        invariant
            from <= i <= to <= s@.len(),
            t == s@.subrange(from as int, to as int),
            forall|k: int| from <= k < i ==> is_digit(#[trigger] s@[k]) || s@[k] == '.',
            points as int == count_points(s@.subrange(from as int, i as int)),
            digits as int == count_digits(s@.subrange(from as int, i as int)),
            points <= 1,
            digits <= i - from,
        decreases to - i,
    {
        let c = s[i];
        assert(s@.subrange(from as int, i + 1).drop_last() =~= s@.subrange(from as int, i as int));
        if c == '.' {
            if points == 1 {
                proof {
                    assert(count_points(s@.subrange(from as int, i + 1)) == 2);
                    lemma_count_points_prefix(t, i + 1 - from);
                    assert(t.subrange(0, i + 1 - from) =~= s@.subrange(from as int, i + 1));
                }
                return false;
            }
            points = points + 1;
        } else if '0' <= c && c <= '9' {
            digits = digits + 1;
        } else {
            assert(t[i - from] == c);
            return false;
        }
        i = i + 1;
    }
    assert(s@.subrange(from as int, i as int) =~= t);
    digits >= 1
}

proof fn lemma_count_points_prefix(t: Seq<char>, n: int)
    requires
        0 <= n <= t.len(),
    ensures
        count_points(t.subrange(0, n)) <= count_points(t),
    decreases t.len() - n,
{
    if n < t.len() {
        lemma_count_points_prefix(t, n + 1);
        assert(t.subrange(0, n + 1).drop_last() =~= t.subrange(0, n));
    } else {
        assert(t.subrange(0, n) =~= t);
    }
}

/// Whether `s[from..]` is an exponent: a mark, an optional sign, digits.
fn check_exponent(s: &Vec<char>, from: usize) -> (r: bool)
    requires
        from < s@.len(),
    ensures
        r == is_exponent(s@.subrange(from as int, s@.len() as int)),
{
    let ghost t = s@.subrange(from as int, s@.len() as int);
    let n = s.len();
    assert(t[0] == s@[from as int]);
    if !(s[from] == 'e' || s[from] == 'E') {
        return false;
    }
    let mut i: usize = from + 1;
    if i < s.len() && (s[i] == '+' || s[i] == '-') {
        i = i + 1;
    }
    let ghost u = unsigned(t.drop_first());
    assert(u =~= s@.subrange(i as int, s@.len() as int));
    if i == s.len() {
        return false;
    }
    let start = i;
    while i < s.len()
        invariant
            start <= i <= s@.len(),
            u == s@.subrange(start as int, s@.len() as int),
            u == unsigned(t.drop_first()),
            t == s@.subrange(from as int, s@.len() as int),
            t.len() > 0 && is_exponent_mark(t[0]),
            u.len() > 0,
            forall|k: int| start <= k < i ==> is_digit(#[trigger] s@[k]),
        decreases s.len() - i,
    {
        if !('0' <= s[i] && s[i] <= '9') {
            assert(u[i - start] == s@[i as int]);
            assert(!all_digits(u));
            assert(!is_exponent(t));
            return false;
        }
        i = i + 1;
    }
    assert forall|k: int| 0 <= k < u.len() implies is_digit(#[trigger] u[k]) by {
        assert(u[k] == s@[start + k]);
    }
    true
}

/// Whether a token is the text of a floating-point number.
pub fn is_number_literal(token: &str) -> (r: bool)
    ensures
        r == is_number(token@),
{
    let s = chars_of(token);
    let mut from: usize = 0;
    if s.len() > 0 && (s[0] == '+' || s[0] == '-') {
        from = 1;
    }
    let ghost u = unsigned(s@);
    assert(u =~= s@.subrange(from as int, s@.len() as int));
    let inf = vec!['i', 'n', 'f'];
    let infinity = vec!['i', 'n', 'f', 'i', 'n', 'i', 't', 'y'];
    let nan = vec!['n', 'a', 'n'];
    assert(inf@ =~= seq!['i', 'n', 'f']);
    assert(infinity@ =~= seq!['i', 'n', 'f', 'i', 'n', 'i', 't', 'y']);
    assert(nan@ =~= seq!['n', 'a', 'n']);
    if matches_word(&s, from, &inf) || matches_word(&s, from, &infinity) || matches_word(
        &s,
        from,
        &nan,
    ) {
        return true;
    }
    let mut m: usize = from;
    while m < s.len() && !(s[m] == 'e' || s[m] == 'E')
        invariant
            from <= m <= s@.len(),
            forall|k: int| from <= k < m ==> !is_exponent_mark(#[trigger] s@[k]),
        decreases s.len() - m,
    {
        m = m + 1;
    }
    proof {
        assert forall|k: int| 0 <= k < m - from implies !is_exponent_mark(#[trigger] u[k]) by {
            assert(u[k] == s@[from + k]);
        }
        if m < s@.len() {
            assert(u[m - from] == s@[m as int]);
        }
        lemma_exponent_at_first(u, m - from);
        assert(u.subrange(0, m - from) =~= s@.subrange(from as int, m as int));
        assert(u.subrange(m - from, u.len() as int) =~= s@.subrange(m as int, s@.len() as int));
    }
    if !check_mantissa(&s, from, m) {
        return false;
    }
    m == s.len() || check_exponent(&s, m)
}

} // verus!
