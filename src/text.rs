//! Character classes, runs of characters, and decimal digit strings.

use vstd::prelude::*;

verus! {

/// The classes of characters that the record grammar is written in.
#[derive(Clone, Copy, PartialEq, Eq, Structural)]
pub enum CharClass {
    /// White space, as Unicode's White_Space property has it.
    Space,
    /// An ASCII decimal digit.
    Digit,
    /// A letter or digit (Unicode's alphabetic and numeric characters), or an underscore.
    Word,
    /// Anything but white space.
    NonSpace,
}

pub open spec fn is_space(c: char) -> bool {
    let u = c as u32;
    (0x09 <= u && u <= 0x0D) || u == 0x20 || u == 0x85 || u == 0xA0 || u == 0x1680 || (0x2000
        <= u && u <= 0x200A) || u == 0x2028 || u == 0x2029 || u == 0x202F || u == 0x205F || u
        == 0x3000
}

pub open spec fn is_digit(c: char) -> bool {
    '0' <= c && c <= '9'
}

/// Whether `c` is alphabetic or numeric by Unicode's tables.
pub uninterp spec fn unicode_alphanumeric(c: char) -> bool;

/// Relies on `char::is_alphanumeric`: whether `c` has Unicode's Alphabetic property or
/// falls in its Numeric categories, a function of `c` alone.
#[verifier::external_body]
fn is_alphanumeric(c: char) -> (r: bool)
    ensures
        r == unicode_alphanumeric(c),
{
    c.is_alphanumeric()
}

pub open spec fn is_word(c: char) -> bool {
    is_digit(c) || ('a' <= c && c <= 'z') || ('A' <= c && c <= 'Z') || c == '_'
        || unicode_alphanumeric(c)
}

pub open spec fn in_class(c: char, k: CharClass) -> bool {
    match k {
        CharClass::Space => is_space(c),
        CharClass::Digit => is_digit(c),
        CharClass::Word => is_word(c),
        CharClass::NonSpace => !is_space(c),
    }
}

/// Every character of `t` is in class `k`.
pub open spec fn all_in(t: Seq<char>, k: CharClass) -> bool {
    forall|j: int| 0 <= j < t.len() ==> #[trigger] in_class(t[j], k)
}

/// Where the longest run of class `k` that starts at `i` ends.
pub open spec fn run_end(s: Seq<char>, i: int, k: CharClass) -> int
    decreases s.len() - i,
{
    if 0 <= i < s.len() && in_class(s[i], k) {
        run_end(s, i + 1, k)
    } else {
        i
    }
}

/// The value of a digit character.
pub open spec fn digit_value(c: char) -> nat {
    (c as u32 - '0' as u32) as nat
}

/// The value of a string of decimal digits, the last one the least significant.
pub open spec fn digits_value(t: Seq<char>) -> nat
    decreases t.len(),
{
    if t.len() == 0 {
        0
    } else {
        digits_value(t.drop_last()) * 10 + digit_value(t.last())
    }
}

pub fn char_in_class(c: char, k: CharClass) -> (r: bool)
    ensures
        r == in_class(c, k),
{
    let u = c as u32;
    let space = (0x09 <= u && u <= 0x0D) || u == 0x20 || u == 0x85 || u == 0xA0 || u == 0x1680
        || (0x2000 <= u && u <= 0x200A) || u == 0x2028 || u == 0x2029 || u == 0x202F || u
        == 0x205F || u == 0x3000;
    let digit = '0' <= c && c <= '9';
    match k {
        CharClass::Space => space,
        CharClass::Digit => digit,
        CharClass::Word => digit || ('a' <= c && c <= 'z') || ('A' <= c && c <= 'Z') || c == '_'
            || is_alphanumeric(c),
        CharClass::NonSpace => !space,
    }
}

pub proof fn lemma_run_end_bounds(s: Seq<char>, i: int, k: CharClass)
    requires
        0 <= i <= s.len(),
    ensures
        i <= run_end(s, i, k) <= s.len(),
        all_in(s.subrange(i, run_end(s, i, k)), k),
        run_end(s, i, k) < s.len() ==> !in_class(s[run_end(s, i, k)], k),
    decreases s.len() - i,
{
    if i < s.len() && in_class(s[i], k) {
        lemma_run_end_bounds(s, i + 1, k);
        let e = run_end(s, i, k);
        assert forall|j: int| 0 <= j < s.subrange(i, e).len() implies #[trigger] in_class(
            s.subrange(i, e)[j],
            k,
        ) by {
            if j > 0 {
                assert(s.subrange(i, e)[j] == s.subrange(i + 1, e)[j - 1]);
            }
        }
    }
}

/// The end of the run of class `k` in `s` that starts at `i`.
pub fn scan(s: &Vec<char>, i: usize, k: CharClass) -> (e: usize)
    requires
        i <= s@.len(),
    ensures
        e == run_end(s@, i as int, k),
        i <= e <= s@.len(),
{
    let mut j: usize = i;
    while j < s.len() && char_in_class(s[j], k)
        invariant
            i <= j <= s@.len(),
            run_end(s@, j as int, k) == run_end(s@, i as int, k),
        decreases s@.len() - j,
    {
        j = j + 1;
    }
    proof {
        lemma_run_end_bounds(s@, i as int, k);
    }
    j
}

pub proof fn lemma_prefix_value_le(t: Seq<char>, j: int)
    requires
        0 <= j <= t.len(),
    ensures
        digits_value(t.take(j)) <= digits_value(t),
    decreases t.len(),
{
    if j < t.len() {
        assert(t.drop_last().take(j) =~= t.take(j));
        lemma_prefix_value_le(t.drop_last(), j);
    } else {
        assert(t.take(j) =~= t);
    }
}

/// The value of the digits `s[a..b]`, where it fits in a `u64`.
pub fn parse_number(s: &Vec<char>, a: usize, b: usize) -> (r: Option<u64>)
    requires
        a <= b <= s@.len(),
        all_in(s@.subrange(a as int, b as int), CharClass::Digit),
    ensures
        match r {
            Some(v) => v as nat == digits_value(s@.subrange(a as int, b as int)),
            None => digits_value(s@.subrange(a as int, b as int)) > u64::MAX,
        },
{
    let ghost t = s@.subrange(a as int, b as int);
    let mut acc: u64 = 0;
    let mut j: usize = a;
    while j < b
        invariant
            a <= j <= b <= s@.len(),
            t == s@.subrange(a as int, b as int),
            all_in(t, CharClass::Digit),
            acc as nat == digits_value(t.take(j - a)),
        decreases b - j,
    {
        proof {
            assert(in_class(t[j - a], CharClass::Digit));
            assert(t.take(j - a + 1).drop_last() =~= t.take(j - a));
            assert(t.take(j - a + 1).last() == s@[j as int]);
        }
        let d = (s[j] as u32 - '0' as u32) as u64;
        let next = match acc.checked_mul(10) {
            Some(m) => m.checked_add(d),
            None => None,
        };
        match next {
            Some(v) => {
                acc = v;
            },
            None => {
                proof {
                    lemma_prefix_value_le(t, j - a + 1);
                }
                return None;
            },
        }
        j = j + 1;
    }
    proof {
        assert(t.take(j - a) =~= t);
    }
    Some(acc)
}

/// A run inside the slice `s[a..b]` ends where the run in `s` ends, or at `b`.
pub proof fn lemma_run_end_in_slice(s: Seq<char>, a: int, i: int, b: int, k: CharClass)
    requires
        0 <= a <= i <= b <= s.len(),
    ensures
        run_end(s.subrange(a, b), i - a, k) + a == if run_end(s, i, k) <= b {
            run_end(s, i, k)
        } else {
            b
        },
    decreases b - i,
{
    lemma_run_end_bounds(s, i, k);
    if i < b {
        assert(s.subrange(a, b)[i - a] == s[i]);
        if in_class(s[i], k) {
            lemma_run_end_in_slice(s, a, i + 1, b, k);
        }
    }
}

/// The slice `s[a..b]` is all of class `k` exactly when the run of `k` from `a` reaches `b`.
pub proof fn lemma_all_in_slice(s: Seq<char>, a: int, b: int, k: CharClass)
    requires
        0 <= a <= b <= s.len(),
    ensures
        all_in(s.subrange(a, b), k) <==> run_end(s, a, k) >= b,
{
    let t = s.subrange(a, b);
    lemma_run_end_in_slice(s, a, a, b, k);
    lemma_run_end_bounds(t, 0, k);
    if all_in(t, k) && run_end(t, 0, k) < t.len() {
        assert(in_class(t[run_end(t, 0, k)], k));
    }
    if run_end(s, a, k) >= b {
        assert(t.subrange(0, run_end(t, 0, k)) =~= t);
    }
}

pub open spec fn digit_char(d: nat) -> char {
    seq!['0', '1', '2', '3', '4', '5', '6', '7', '8', '9'][d as int]
}

/// The decimal notation of `n`, without leading zeros.
pub open spec fn decimal_digits(n: nat) -> Seq<char>
    decreases n,
{
    if n < 10 {
        seq![digit_char(n)]
    } else {
        decimal_digits(n / 10).push(digit_char(n % 10))
    }
}

/// Ten to the power `n`.
pub open spec fn pow10(n: nat) -> nat
    decreases n,
{
    if n == 0 {
        1
    } else {
        10 * pow10((n - 1) as nat)
    }
}

pub proof fn lemma_pow10_positive(n: nat)
    ensures
        pow10(n) >= 1,
    decreases n,
{
    if n > 0 {
        lemma_pow10_positive((n - 1) as nat);
    }
}

/// The value of two digit strings written one after the other.
pub proof fn lemma_value_concat(a: Seq<char>, b: Seq<char>)
    ensures
        digits_value(a + b) == digits_value(a) * pow10(b.len()) + digits_value(b),
    decreases b.len(),
{
    if b.len() == 0 {
        assert(a + b =~= a);
        assert(pow10(0) == 1);
        assert(digits_value(b) == 0);
        assert(digits_value(a) * 1 == digits_value(a));
    } else {
        let b1 = b.drop_last();
        assert((a + b).drop_last() =~= a + b1);
        assert((a + b).last() == b.last());
        lemma_value_concat(a, b1);
        assert(digits_value(a + b) == digits_value(a + b1) * 10 + digit_value(b.last()));
        assert(pow10(b.len()) == 10 * pow10(b1.len()));
        let va = digits_value(a);
        let p = pow10(b1.len());
        let v1 = digits_value(b1);
        let d = digit_value(b.last());
        assert(digits_value(b) == v1 * 10 + d);
        assert((va * p + v1) * 10 + d == va * (10 * p) + (v1 * 10 + d)) by (nonlinear_arith);
    }
}

/// A string of zeros is worth nothing.
pub proof fn lemma_zeros_value(t: Seq<char>)
    requires
        forall|j: int| 0 <= j < t.len() ==> t[j] == '0',
    ensures
        digits_value(t) == 0,
    decreases t.len(),
{
    if t.len() > 0 {
        lemma_zeros_value(t.drop_last());
    }
}

/// A string of nines of length `m` is worth `10^m - 1`.
pub proof fn lemma_nines_value(t: Seq<char>)
    requires
        forall|j: int| 0 <= j < t.len() ==> t[j] == '9',
    ensures
        digits_value(t) + 1 == pow10(t.len()),
    decreases t.len(),
{
    if t.len() > 0 {
        lemma_nines_value(t.drop_last());
    }
}

pub proof fn lemma_digit_char(c: char)
    requires
        is_digit(c),
    ensures
        digit_value(c) < 10,
        digit_char(digit_value(c)) == c,
{
    let u = c as u32;
    if u == 48 {
        assert(c == '0');
    } else if u == 49 {
        assert(c == '1');
    } else if u == 50 {
        assert(c == '2');
    } else if u == 51 {
        assert(c == '3');
    } else if u == 52 {
        assert(c == '4');
    } else if u == 53 {
        assert(c == '5');
    } else if u == 54 {
        assert(c == '6');
    } else if u == 55 {
        assert(c == '7');
    } else if u == 56 {
        assert(c == '8');
    } else {
        assert(c == '9');
    }
}

/// A digit string that does not start with a zero (or is a single digit) is the decimal
/// notation of its own value.
pub proof fn lemma_canonical_digits(t: Seq<char>)
    requires
        t.len() >= 1,
        all_in(t, CharClass::Digit),
        t.len() == 1 || t[0] != '0',
    ensures
        decimal_digits(digits_value(t)) == t,
    decreases t.len(),
{
    assert(in_class(t.last(), CharClass::Digit));
    lemma_digit_char(t.last());
    let d = digit_value(t.last());
    if t.len() == 1 {
        assert(t.drop_last() =~= Seq::<char>::empty());
        assert(digits_value(t.drop_last()) == 0);
        assert(digits_value(t) == d);
        assert(seq![digit_char(d)] =~= t);
    } else {
        let p = t.drop_last();
        assert(all_in(p, CharClass::Digit)) by {
            assert forall|j: int| 0 <= j < p.len() implies #[trigger] in_class(p[j], CharClass::Digit) by {
                assert(in_class(t[j], CharClass::Digit));
            }
        }
        lemma_canonical_digits(p);
        assert(in_class(p[0], CharClass::Digit));
        let first = p.take(1);
        let rest = p.skip(1);
        assert(first + rest =~= p);
        lemma_value_concat(first, rest);
        lemma_pow10_positive(rest.len());
        assert(first.drop_last() =~= Seq::<char>::empty());
        assert(digits_value(first.drop_last()) == 0);
        assert(first.last() == p[0]);
        assert(digits_value(first) == digit_value(p[0]));
        lemma_digit_char(p[0]);
        let vp = digits_value(p);
        assert(vp >= 1) by (nonlinear_arith)
            requires
                vp == digit_value(p[0]) * pow10(rest.len()) + digits_value(rest),
                digit_value(p[0]) >= 1,
                pow10(rest.len()) >= 1,
        ;
        let n = vp * 10 + d;
        assert(n / 10 == vp && n % 10 == d) by (nonlinear_arith)
            requires
                n == vp * 10 + d,
                d < 10,
        ;
        assert(p.push(t.last()) =~= t);
    }
}

/// Appends the digit `d`.
pub fn push_digit(out: &mut String, d: u64)
    requires
        d < 10,
    ensures
        final(out)@ == old(out)@ + seq![digit_char(d as nat)],
{
    let table = "0123456789";
    proof {
        reveal_strlit("0123456789");
    }
    let c = table.substring_char(d as usize, d as usize + 1);
    out.append(c);
    assert(c@ =~= seq![digit_char(d as nat)]);
}

/// The digit character for `e` is a digit, worth `e`.
pub proof fn lemma_char_of_digit(e: nat)
    requires
        e < 10,
    ensures
        is_digit(digit_char(e)),
        digit_value(digit_char(e)) == e,
{
    let s = seq!['0', '1', '2', '3', '4', '5', '6', '7', '8', '9'];
    assert(s[0] == '0' && s[1] == '1' && s[2] == '2' && s[3] == '3' && s[4] == '4');
    assert(s[5] == '5' && s[6] == '6' && s[7] == '7' && s[8] == '8' && s[9] == '9');
}

} // verus!
