//! Character-level helpers: substring search, suffix stripping, and the
//! number formats that the status page uses.

use vstd::prelude::*;

verus! {

pub open spec fn is_digit(c: char) -> bool {
    '0' <= c && c <= '9'
}

pub open spec fn digit_value(c: char) -> nat {
    (c as int - '0' as int) as nat
}

pub open spec fn all_digits(s: Seq<char>) -> bool {
    forall|i: int| 0 <= i < s.len() ==> is_digit(#[trigger] s[i])
}

/// Does `pat` occur in `s` at position `i`?
pub open spec fn occurs_at(s: Seq<char>, pat: Seq<char>, i: int) -> bool {
    0 <= i && i + pat.len() <= s.len() && s.subrange(i, i + pat.len()) == pat
}

pub open spec fn contains(s: Seq<char>, pat: Seq<char>) -> bool {
    exists|i: int| occurs_at(s, pat, i)
}

/// The first position at or after `i` where `pat` occurs in `s`, or `s.len()`.
pub open spec fn find_from(s: Seq<char>, pat: Seq<char>, i: int) -> int
    decreases s.len() - i,
{
    if i < 0 || i >= s.len() || i + pat.len() > s.len() {
        s.len() as int
    } else if s.subrange(i, i + pat.len()) == pat {
        i
    } else {
        find_from(s, pat, i + 1)
    }
}

/// What precedes the first occurrence of `pat` in `s`; all of `s` where `pat`
/// does not occur.
pub open spec fn before_first(s: Seq<char>, pat: Seq<char>) -> Seq<char> {
    s.subrange(0, find_from(s, pat, 0))
}

proof fn lemma_find_from(s: Seq<char>, pat: Seq<char>, i: int)
    requires
        0 <= i <= s.len(),
        pat.len() > 0,
    ensures
        i <= find_from(s, pat, i) <= s.len(),
        find_from(s, pat, i) < s.len() ==> occurs_at(s, pat, find_from(s, pat, i)),
        forall|k: int| i <= k < find_from(s, pat, i) ==> !occurs_at(s, pat, k),
    decreases s.len() - i,
{
    if i >= s.len() || i + pat.len() > s.len() {
    } else if s.subrange(i, i + pat.len()) == pat {
    } else {
        lemma_find_from(s, pat, i + 1);
    }
}

proof fn lemma_contains_find(s: Seq<char>, pat: Seq<char>)
    requires
        pat.len() > 0,
    ensures
        contains(s, pat) == (find_from(s, pat, 0) < s.len()),
{
    lemma_find_from(s, pat, 0);
    if contains(s, pat) {
        let k = choose|k: int| occurs_at(s, pat, k);
        assert(find_from(s, pat, 0) <= k);
    }
}

fn occurs_at_exec(s: &Vec<char>, pat: &Vec<char>, i: usize) -> (r: bool)
    requires
        i <= s@.len(),
        pat@.len() <= s@.len() - i,
    ensures
        r == (s@.subrange(i as int, i + pat@.len()) == pat@),
{
    let n: usize = s.len();
    let mut j: usize = 0;
    while j < pat.len()
        invariant
            n == s@.len(),
            j <= pat@.len(),
            i <= s@.len(),
            pat@.len() <= s@.len() - i,
            forall|k: int| 0 <= k < j ==> s@[i + k] == pat@[k],
        decreases pat@.len() - j,
    {
        assert(i + j < s@.len());
        if s[i + j] != pat[j] {
            assert(s@.subrange(i as int, i + pat@.len())[j as int] != pat@[j as int]);
            return false;
        }
        j = j + 1;
    }
    assert(s@.subrange(i as int, i + pat@.len()) =~= pat@);
    true
}

/// Position of the first occurrence of `pat` in `s`, or `s.len()`.
pub(crate) fn find(s: &Vec<char>, pat: &Vec<char>) -> (r: usize)
    requires
        pat@.len() > 0,
    ensures
        r == find_from(s@, pat@, 0),
{
    let mut i: usize = 0;
    while pat.len() <= s.len() - i
        invariant
            i <= s@.len(),
            pat@.len() > 0,
            find_from(s@, pat@, i as int) == find_from(s@, pat@, 0),
        decreases s@.len() - i,
    {
        if occurs_at_exec(s, pat, i) {
            return i;
        }
        i = i + 1;
    }
    s.len()
}

/// Does `pat` occur in `s`?
pub fn contains_exec(s: &Vec<char>, pat: &Vec<char>) -> (r: bool)
    requires
        pat@.len() > 0,
    ensures
        r == contains(s@, pat@),
{
    proof {
        lemma_contains_find(s@, pat@);
    }
    find(s, pat) < s.len()
}

/// The characters of `s` in `[lo, hi)`.
pub(crate) fn slice_of(s: &Vec<char>, lo: usize, hi: usize) -> (r: Vec<char>)
    requires
        lo <= hi <= s@.len(),
    ensures
        r@ == s@.subrange(lo as int, hi as int),
{
    let mut r: Vec<char> = Vec::new();
    let mut i: usize = lo;
    while i < hi
        invariant
            lo <= i <= hi <= s@.len(),
            r@ == s@.subrange(lo as int, i as int),
        decreases hi - i,
    {
        r.push(s[i]);
        i = i + 1;
        assert(r@ =~= s@.subrange(lo as int, i as int));
    }
    r
}

/// What precedes the first occurrence of `pat` in `s`, or all of `s`.
pub fn strip_unit(s: &Vec<char>, pat: &Vec<char>) -> (r: Vec<char>)
    requires
        pat@.len() > 0,
    ensures
        r@ == before_first(s@, pat@),
{
    proof {
        lemma_find_from(s@, pat@, 0);
    }
    let k = find(s, pat);
    slice_of(s, 0, k)
}

/// Value of a string of decimal digits, most significant first.
pub open spec fn digits_value(s: Seq<char>) -> nat
    decreases s.len(),
{
    if s.len() == 0 {
        0
    } else {
        digits_value(s.drop_last()) * 10 + digit_value(s.last())
    }
}

/// `s` without one leading `+`, which an unsigned literal may carry.
pub open spec fn without_plus(s: Seq<char>) -> Seq<char> {
    if s.len() > 0 && s[0] == '+' {
        s.drop_first()
    } else {
        s
    }
}

/// The value of `s` read as a 16-bit unsigned decimal literal: an optional
/// `+`, then at least one digit, with a value that fits in 16 bits.
pub open spec fn u16_value(s: Seq<char>) -> Option<u16> {
    let d = without_plus(s);
    if d.len() > 0 && all_digits(d) && digits_value(d) <= 65535 {
        Some(digits_value(d) as u16)
    } else {
        None
    }
}

proof fn lemma_digits_value_grows(s: Seq<char>, j: int)
    requires
        0 <= j <= s.len(),
        all_digits(s),
    ensures
        digits_value(s.subrange(0, j)) <= digits_value(s),
    decreases s.len(),
{
    if j < s.len() {
        assert(s.drop_last() =~= s.subrange(0, s.len() - 1));
        assert(s.subrange(0, j) =~= s.drop_last().subrange(0, j));
        lemma_digits_value_grows(s.drop_last(), j);
    } else {
        assert(s.subrange(0, j) =~= s);
    }
}

/// Reads a 16-bit unsigned decimal literal.
pub fn parse_u16(s: &Vec<char>) -> (r: Option<u16>)
    ensures
        r == u16_value(s@),
{
    let lo: usize = if s.len() > 0 && s[0] == '+' {
        1
    } else {
        0
    };
    let ghost d = without_plus(s@);
    assert(d =~= s@.subrange(lo as int, s@.len() as int));
    if lo == s.len() {
        return None;
    }
    let mut i: usize = lo;
    while i < s.len()
        invariant
            lo <= i <= s@.len(),
            d =~= s@.subrange(lo as int, s@.len() as int),
            d == without_plus(s@),
            forall|k: int| lo <= k < i ==> is_digit(#[trigger] s@[k]),
        decreases s@.len() - i,
    {
        if !('0' <= s[i] && s[i] <= '9') {
            assert(!is_digit(d[i - lo]));
            assert(!all_digits(d));
            return None;
        }
        i = i + 1;
    }
    assert(all_digits(d)) by {
        assert forall|k: int| 0 <= k < d.len() implies is_digit(#[trigger] d[k]) by {
            assert(d[k] == s@[lo + k]);
        }
    }
    let mut acc: u32 = 0;
    let mut i: usize = lo;
    while i < s.len()
        invariant
            lo <= i <= s@.len(),
            d =~= s@.subrange(lo as int, s@.len() as int),
            d == without_plus(s@),
            all_digits(d),
            acc <= 65535,
            acc == digits_value(d.subrange(0, i - lo)),
        decreases s@.len() - i,
    {
        let c = s[i];
        assert(is_digit(d[i - lo]));
        let dv: u32 = (c as u32) - ('0' as u32);
        assert(d.subrange(0, i + 1 - lo).drop_last() =~= d.subrange(0, i - lo));
        let next: u32 = acc * 10 + dv;
        assert(d.subrange(0, i + 1 - lo).last() == c);
        assert(digits_value(d.subrange(0, i + 1 - lo)) == next);
        if next > 65535 {
            proof {
                lemma_digits_value_grows(d, i + 1 - lo);
                assert(digits_value(d) > 65535);
            }
            return None;
        }
        acc = next;
        i = i + 1;
    }
    assert(d.subrange(0, d.len() as int) =~= d);
    Some(acc as u16)
}

/// `s` without one leading sign.
pub open spec fn without_sign(s: Seq<char>) -> Seq<char> {
    if s.len() > 0 && (s[0] == '+' || s[0] == '-') {
        s.drop_first()
    } else {
        s
    }
}

/// At least one digit, with at most one decimal point among the digits.
pub open spec fn is_decimal(m: Seq<char>) -> bool {
    (m.len() > 0 && all_digits(m)) || exists|p: int|
        0 <= p < m.len() && #[trigger] m[p] == '.' && m.len() >= 2 && all_digits(
            m.subrange(0, p),
        ) && all_digits(m.subrange(p + 1, m.len() as int))
}

pub open spec fn is_exponent_mark(c: char) -> bool {
    c == 'e' || c == 'E'
}

/// An exponent: an optional sign and at least one digit.
pub open spec fn is_exponent(x: Seq<char>) -> bool {
    without_sign(x).len() > 0 && all_digits(without_sign(x))
}

/// A finite decimal floating-point literal: an optional sign, a decimal
/// mantissa, and an optional exponent introduced by `e` or `E`.
pub open spec fn is_float_literal(s: Seq<char>) -> bool {
    let b = without_sign(s);
    is_decimal(b) || exists|e: int|
        0 <= e < b.len() && is_exponent_mark(#[trigger] b[e]) && is_decimal(b.subrange(0, e))
            && is_exponent(b.subrange(e + 1, b.len() as int))
}

proof fn lemma_decimal_chars(m: Seq<char>)
    requires
        is_decimal(m),
    ensures
        forall|i: int| 0 <= i < m.len() ==> is_digit(#[trigger] m[i]) || m[i] == '.',
{
    if !(m.len() > 0 && all_digits(m)) {
        let p = choose|p: int|
            0 <= p < m.len() && #[trigger] m[p] == '.' && m.len() >= 2 && all_digits(
                m.subrange(0, p),
            ) && all_digits(m.subrange(p + 1, m.len() as int));
        assert forall|i: int| 0 <= i < m.len() implies is_digit(#[trigger] m[i]) || m[i]
            == '.' by {
            if i < p {
                assert(m.subrange(0, p)[i] == m[i]);
            } else if i > p {
                assert(m.subrange(p + 1, m.len() as int)[i - p - 1] == m[i]);
            }
        }
    }
}

fn digits_in(v: &Vec<char>, lo: usize, hi: usize) -> (r: bool)
    requires
        lo <= hi <= v@.len(),
    ensures
        r == all_digits(v@.subrange(lo as int, hi as int)),
{
    let mut i: usize = lo;
    while i < hi
        invariant
            lo <= i <= hi <= v@.len(),
            forall|k: int| lo <= k < i ==> is_digit(#[trigger] v@[k]),
        decreases hi - i,
    {
        if !('0' <= v[i] && v[i] <= '9') {
            assert(!is_digit(v@.subrange(lo as int, hi as int)[i - lo]));
            return false;
        }
        i = i + 1;
    }
    assert forall|k: int| 0 <= k < hi - lo implies is_digit(
        #[trigger] v@.subrange(lo as int, hi as int)[k],
    ) by {
        assert(v@.subrange(lo as int, hi as int)[k] == v@[lo + k]);
    }
    true
}

/// The first position in `[lo, hi)` holding `a` or `b`, or `hi`.
fn first_in(v: &Vec<char>, lo: usize, hi: usize, a: char, b: char) -> (r: usize)
    requires
        lo <= hi <= v@.len(),
    ensures
        lo <= r <= hi,
        forall|k: int| lo <= k < r ==> v@[k] != a && v@[k] != b,
        r < hi ==> v@[r as int] == a || v@[r as int] == b,
{
    let mut i: usize = lo;
    while i < hi
        invariant
            lo <= i <= hi <= v@.len(),
            forall|k: int| lo <= k < i ==> v@[k] != a && v@[k] != b,
        decreases hi - i,
    {
        if v[i] == a || v[i] == b {
            return i;
        }
        i = i + 1;
    }
    hi
}

fn decimal_in(v: &Vec<char>, lo: usize, hi: usize) -> (r: bool)
    requires
        lo <= hi <= v@.len(),
    ensures
        r == is_decimal(v@.subrange(lo as int, hi as int)),
{
    let ghost m = v@.subrange(lo as int, hi as int);
    let p = first_in(v, lo, hi, '.', '.');
    if p == hi {
        let r = hi > lo && digits_in(v, lo, hi);
        proof {
            assert forall|q: int| 0 <= q < m.len() implies #[trigger] m[q] != '.' by {
                assert(m[q] == v@[lo + q]);
            }
        }
        r
    } else {
        let r = hi - lo >= 2 && digits_in(v, lo, p) && digits_in(v, p + 1, hi);
        proof {
            let pp = p - lo;
            assert(m[pp] == '.');
            assert(!is_digit(m[pp]));
            assert(m.subrange(0, pp) =~= v@.subrange(lo as int, p as int));
            assert(m.subrange(pp + 1, m.len() as int) =~= v@.subrange(p + 1, hi as int));
            if is_decimal(m) && !(m.len() > 0 && all_digits(m)) {
                let q = choose|q: int|
                    0 <= q < m.len() && #[trigger] m[q] == '.' && m.len() >= 2 && all_digits(
                        m.subrange(0, q),
                    ) && all_digits(m.subrange(q + 1, m.len() as int));
                if q < pp {
                    assert(m[q] == v@[lo + q]);
                } else if q > pp {
                    assert(m.subrange(0, q)[pp] == m[pp]);
                }
            }
        }
        r
    }
}

/// Is `v` a finite decimal floating-point literal?
pub fn is_float_literal_exec(v: &Vec<char>) -> (r: bool)
    ensures
        r == is_float_literal(v@),
{
    let n = v.len();
    let lo: usize = if n > 0 && (v[0] == '+' || v[0] == '-') {
        1
    } else {
        0
    };
    let ghost b = without_sign(v@);
    assert(b =~= v@.subrange(lo as int, n as int));
    let e = first_in(v, lo, n, 'e', 'E');
    if e == n {
        let r = decimal_in(v, lo, n);
        proof {
            if !r && is_float_literal(v@) {
                let q = choose|q: int|
                    0 <= q < b.len() && is_exponent_mark(#[trigger] b[q]) && is_decimal(
                        b.subrange(0, q),
                    ) && is_exponent(b.subrange(q + 1, b.len() as int));
                assert(b[q] == v@[lo + q]);
            }
        }
        r
    } else {
        let mut r = decimal_in(v, lo, e);
        if r {
            let lo2: usize = if e + 1 < n && (v[e + 1] == '+' || v[e + 1] == '-') {
                e + 2
            } else {
                e + 1
            };
            r = lo2 < n && digits_in(v, lo2, n);
            proof {
                let x = b.subrange(e + 1 - lo, b.len() as int);
                assert(x =~= v@.subrange(e + 1, n as int));
                assert(without_sign(x) =~= v@.subrange(lo2 as int, n as int));
            }
        }
        proof {
            let ep = e - lo;
            assert(b[ep] == v@[e as int]);
            assert(b.subrange(0, ep) =~= v@.subrange(lo as int, e as int));
            if is_decimal(b) {
                lemma_decimal_chars(b);
                assert(is_digit(b[ep]) || b[ep] == '.');
            }
            if is_float_literal(v@) && !is_decimal(b) {
                let q = choose|q: int|
                    0 <= q < b.len() && is_exponent_mark(#[trigger] b[q]) && is_decimal(
                        b.subrange(0, q),
                    ) && is_exponent(b.subrange(q + 1, b.len() as int));
                if q < ep {
                    assert(b[q] == v@[lo + q]);
                } else if q > ep {
                    lemma_decimal_chars(b.subrange(0, q));
                    assert(b.subrange(0, q)[ep] == b[ep]);
                }
            }
        }
        r
    }
}

pub open spec fn decimal_digits() -> Seq<char> {
    seq!['0', '1', '2', '3', '4', '5', '6', '7', '8', '9']
}

/// The decimal notation of `n`, without leading zeros.
pub open spec fn decimal_text(n: nat) -> Seq<char>
    decreases n,
{
    if n < 10 {
        seq![decimal_digits()[n as int]]
    } else {
        decimal_text(n / 10).push(decimal_digits()[(n % 10) as int])
    }
}

proof fn lemma_decimal_digit(d: nat)
    requires
        d < 10,
    ensures
        decimal_digits()[d as int] as u32 == 48 + d,
{
    let s = decimal_digits();
    assert(s[0] == '0' && s[1] == '1' && s[2] == '2' && s[3] == '3' && s[4] == '4');
    assert(s[5] == '5' && s[6] == '6' && s[7] == '7' && s[8] == '8' && s[9] == '9');
}

proof fn lemma_decimal_text_len(n: nat)
    ensures
        decimal_text(n).len() >= 1,
        n >= 10 ==> decimal_text(n).len() >= 2,
    decreases n,
{
    if n >= 10 {
        lemma_decimal_text_len(n / 10);
    }
}

/// Different numbers have different decimal notations.
pub proof fn lemma_decimal_text_injective(a: nat, b: nat)
    requires
        decimal_text(a) == decimal_text(b),
    ensures
        a == b,
    decreases a,
{
    lemma_decimal_text_len(a);
    lemma_decimal_text_len(b);
    if a < 10 && b < 10 {
        assert(decimal_text(a)[0] == decimal_digits()[a as int]);
        assert(decimal_text(b)[0] == decimal_digits()[b as int]);
        lemma_decimal_digit(a);
        lemma_decimal_digit(b);
        assert(a == b);
    } else if a >= 10 && b >= 10 {
        let ta = decimal_text(a);
        let tb = decimal_text(b);
        assert(ta.last() == tb.last());
        lemma_decimal_digit(a % 10);
        lemma_decimal_digit(b % 10);
        assert(ta.drop_last() =~= decimal_text(a / 10));
        assert(tb.drop_last() =~= decimal_text(b / 10));
        lemma_decimal_text_injective(a / 10, b / 10);
        assert(a == 10 * (a / 10) + a % 10);
        assert(b == 10 * (b / 10) + b % 10);
        assert(a == b);
    } else if a < 10 {
        assert(decimal_text(a).len() == 1);
    } else {
        assert(decimal_text(b).len() == 1);
    }
}

/// Appends the decimal notation of `n` to `out`.
pub(crate) fn push_decimal(n: u16, out: &mut Vec<char>)
    ensures
        final(out)@ == old(out)@ + decimal_text(n as nat),
    decreases n,
{
    let digits: Vec<char> = vec!['0', '1', '2', '3', '4', '5', '6', '7', '8', '9'];
    assert(digits@ =~= decimal_digits());
    if n >= 10 {
        push_decimal(n / 10, out);
    }
    out.push(digits[(n % 10) as usize]);
    assert(final(out)@ =~= old(out)@ + decimal_text(n as nat));
}

/// Relies on `str::chars`: it yields the characters of the string in order.
#[verifier::external_body]
pub(crate) fn chars_of(s: &str) -> (r: Vec<char>)
    ensures
        r@ == s@,
{
    s.chars().collect()
}

/// Relies on `FromIterator<&char>` for `String`: the string holds the
/// characters in the order given.
#[verifier::external_body]
pub(crate) fn string_of(v: &Vec<char>) -> (r: String)
    ensures
        r@ == v@,
{
    v.iter().collect()
}

} // verus!
