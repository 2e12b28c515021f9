//! The record grammar and the parser that reads one line against it.
//!
//! A line is read from its start as whitespace-separated fields: the record type (word
//! characters: letters and digits of any script, and the underscore), the serial number
//! (ASCII digits), the atom name and the group name (word characters), the group number
//! (digits), three coordinates (an optional minus sign, digits, a dot, digits), and two
//! integers (digits). Text after the digits of the last field is ignored. Coordinates are
//! kept to three decimals, a fourth decimal of five or more rounding the magnitude up.

use vstd::prelude::*;
use vstd::string::*;
use crate::text::{
    CharClass,
    all_in,
    run_end,
    digit_value,
    digits_value,
    digit_char,
    decimal_digits,
    pow10,
    push_digit,
    lemma_value_concat,
    lemma_zeros_value,
    lemma_nines_value,
    lemma_digit_char,
    lemma_char_of_digit,
    lemma_canonical_digits,
    scan,
    parse_number,
    lemma_all_in_slice,
    lemma_run_end_in_slice,
};
use crate::record::{AtomType, Fixed3, FixedView, Coordinate, Atom, AtomView};

verus! {

/// The record type that marks a primary record.
pub open spec fn atom_literal() -> Seq<char> {
    seq!['A', 'T', 'O', 'M']
}

/// A field without its leading minus sign, if it has one.
pub open spec fn unsigned_part(t: Seq<char>) -> Seq<char> {
    if t.len() > 0 && t[0] == '-' {
        t.skip(1)
    } else {
        t
    }
}

/// An optional minus sign, one or more digits, a dot, one or more digits.
pub open spec fn is_decimal(t: Seq<char>) -> bool {
    let b = unsigned_part(t);
    let p = run_end(b, 0, CharClass::Digit);
    0 < p && p + 1 < b.len() && b[p] == '.' && run_end(b, p + 1, CharClass::Digit) == b.len()
}

/// Field `k` of a line (counting from zero, the last one apart) has the shape it must have.
pub open spec fn shape_ok(t: Seq<char>, k: int) -> bool {
    &&& t.len() > 0
    &&& if k == 0 || k == 2 || k == 3 {
        all_in(t, CharClass::Word)
    } else if 5 <= k <= 7 {
        is_decimal(t)
    } else {
        all_in(t, CharClass::Digit)
    }
}

/// The fields `k` and after of a line, read from position `i`; `None` where the line
/// does not have them in the shapes the grammar asks for.
pub open spec fn fields_from(s: Seq<char>, i: int, k: int) -> Option<Seq<Seq<char>>>
    decreases 9 - k,
{
    if k >= 9 {
        let e = run_end(s, i, CharClass::Digit);
        if e > i {
            Some(seq![s.subrange(i, e)])
        } else {
            None
        }
    } else {
        let e = run_end(s, i, CharClass::NonSpace);
        let t = s.subrange(i, e);
        if e < s.len() && shape_ok(t, k) {
            match fields_from(s, run_end(s, e, CharClass::Space), k + 1) {
                Some(rest) => Some(seq![t] + rest),
                None => None,
            }
        } else {
            None
        }
    }
}

/// The ten fields of a line that matches the grammar.
pub open spec fn line_fields(s: Seq<char>) -> Option<Seq<Seq<char>>> {
    fields_from(s, 0, 0)
}

pub open spec fn digit_at(f: Seq<char>, j: int) -> nat {
    if j < f.len() {
        digit_value(f[j])
    } else {
        0
    }
}

/// The magnitude of a decimal field in thousandths, rounded half up at the fourth decimal.
pub open spec fn decimal_milli(t: Seq<char>) -> nat {
    let b = unsigned_part(t);
    let p = run_end(b, 0, CharClass::Digit);
    let f = b.skip(p + 1);
    digits_value(b.take(p)) * 1000 + digit_at(f, 0) * 100 + digit_at(f, 1) * 10 + digit_at(f, 2)
        + if f.len() > 3 && digit_value(f[3]) >= 5 {
        1nat
    } else {
        0nat
    }
}

/// A decimal field kept to three decimals.
pub open spec fn fixed_of(t: Seq<char>) -> FixedView {
    FixedView {
        negative: t.len() > 0 && t[0] == '-',
        whole: decimal_digits(decimal_milli(t) / 1000),
        milli: decimal_milli(t) % 1000,
    }
}

pub open spec fn fits_usize(n: nat) -> bool {
    n <= usize::MAX
}

/// The record that ten fields give, where its integers fit in a `usize`.
pub open spec fn record_of(ts: Seq<Seq<char>>) -> Option<AtomView> {
    if fits_usize(digits_value(ts[1])) && fits_usize(digits_value(ts[4])) && fits_usize(
        digits_value(ts[8]),
    ) && fits_usize(digits_value(ts[9])) {
        Some(
            AtomView {
                primary: ts[0] == atom_literal(),
                number: digits_value(ts[1]),
                name: ts[2],
                kind: ts[2].take(1),
                aa_name: ts[3],
                aa_number: digits_value(ts[4]),
                x: fixed_of(ts[5]),
                y: fixed_of(ts[6]),
                z: fixed_of(ts[7]),
                second_to_last: digits_value(ts[8]),
                last: digits_value(ts[9]),
            },
        )
    } else {
        None
    }
}

/// The record a line gives, or `None` where it gives none.
pub open spec fn parse_line(s: Seq<char>) -> Option<AtomView> {
    match line_fields(s) {
        Some(ts) => record_of(ts),
        None => None,
    }
}

pub open spec fn slices(s: Seq<char>, v: Seq<(usize, usize)>) -> Seq<Seq<char>> {
    v.map_values(|p: (usize, usize)| s.subrange(p.0 as int, p.1 as int))
}

pub open spec fn prefixed(p: Seq<Seq<char>>, o: Option<Seq<Seq<char>>>) -> Option<Seq<Seq<char>>> {
    match o {
        Some(r) => Some(p + r),
        None => None,
    }
}

/// Whether `s[a..b]` is a decimal field.
fn decimal_ok(s: &Vec<char>, a: usize, b: usize) -> (r: bool)
    requires
        a < b <= s@.len(),
    ensures
        r == is_decimal(s@.subrange(a as int, b as int)),
{
    let ghost t = s@.subrange(a as int, b as int);
    let u: usize = if s[a] == '-' {
        a + 1
    } else {
        a
    };
    let ghost bs = s@.subrange(u as int, b as int);
    assert(unsigned_part(t) =~= bs);
    let p = scan(s, u, CharClass::Digit);
    proof {
        lemma_run_end_in_slice(s@, u as int, u as int, b as int, CharClass::Digit);
    }
    if p <= u || p >= b - 1 {
        return false;
    }
    assert(bs[p - u] == s@[p as int]);
    if s[p] != '.' {
        return false;
    }
    let q = scan(s, p + 1, CharClass::Digit);
    proof {
        lemma_run_end_in_slice(s@, u as int, (p + 1) as int, b as int, CharClass::Digit);
    }
    q >= b
}

/// Whether `s[a..b]` has the shape of field `k`.
fn shape_check(s: &Vec<char>, a: usize, b: usize, k: usize) -> (r: bool)
    requires
        a <= b <= s@.len(),
    ensures
        r == shape_ok(s@.subrange(a as int, b as int), k as int),
{
    if a == b {
        return false;
    }
    if k == 0 || k == 2 || k == 3 {
        let w = scan(s, a, CharClass::Word);
        proof {
            lemma_all_in_slice(s@, a as int, b as int, CharClass::Word);
        }
        w >= b
    } else if 5 <= k && k <= 7 {
        decimal_ok(s, a, b)
    } else {
        let d = scan(s, a, CharClass::Digit);
        proof {
            lemma_all_in_slice(s@, a as int, b as int, CharClass::Digit);
        }
        d >= b
    }
}

/// Field `k` from position `i`: where it ends and where the field after it starts.
fn next_field(s: &Vec<char>, i: usize, k: usize) -> (r: Option<(usize, usize)>)
    requires
        i <= s@.len(),
        k < 9,
    ensures
        match r {
            Some((e, n)) => {
                &&& e == run_end(s@, i as int, CharClass::NonSpace)
                &&& e < s@.len()
                &&& shape_ok(s@.subrange(i as int, e as int), k as int)
                &&& n == run_end(s@, e as int, CharClass::Space)
                &&& i <= e <= n <= s@.len()
            },
            None => !(run_end(s@, i as int, CharClass::NonSpace) < s@.len() && shape_ok(
                s@.subrange(i as int, run_end(s@, i as int, CharClass::NonSpace)),
                k as int,
            )),
        },
{
    let e = scan(s, i, CharClass::NonSpace);
    if e >= s.len() {
        return None;
    }
    if !shape_check(s, i, e, k) {
        return None;
    }
    let n = scan(s, e, CharClass::Space);
    Some((e, n))
}

/// Appends the digits `s[a..b]`.
fn push_slice(out: &mut String, s: &Vec<char>, a: usize, b: usize)
    requires
        a <= b <= s@.len(),
        all_in(s@.subrange(a as int, b as int), CharClass::Digit),
    ensures
        final(out)@ == old(out)@ + s@.subrange(a as int, b as int),
{
    let mut i: usize = a;
    while i < b
        invariant
            a <= i <= b <= s@.len(),
            all_in(s@.subrange(a as int, b as int), CharClass::Digit),
            out@ == old(out)@ + s@.subrange(a as int, i as int),
        decreases b - i,
    {
        proof {
            assert(crate::text::in_class(s@.subrange(a as int, b as int)[i - a], CharClass::Digit));
            lemma_digit_char(s@[i as int]);
        }
        push_digit(out, (s[i] as u32 - '0' as u32) as u64);
        i = i + 1;
        assert(out@ =~= old(out)@ + s@.subrange(a as int, i as int));
    }
}

/// Appends `n` zeros.
fn push_zeros(out: &mut String, n: usize)
    ensures
        final(out)@ == old(out)@ + Seq::new(n as nat, |_j: int| '0'),
{
    let mut i: usize = 0;
    while i < n
        invariant
            i <= n,
            out@ == old(out)@ + Seq::new(i as nat, |_j: int| '0'),
        decreases n - i,
    {
        push_digit(out, 0);
        i = i + 1;
        assert(out@ =~= old(out)@ + Seq::new(i as nat, |_j: int| '0'));
    }
}

/// The decimal notation of the digits `s[u..p]` plus one when `carry` holds.
fn whole_text(s: &Vec<char>, u: usize, p: usize, carry: bool) -> (r: String)
    requires
        u < p <= s@.len(),
        all_in(s@.subrange(u as int, p as int), CharClass::Digit),
    ensures
        r@ == decimal_digits(
            digits_value(s@.subrange(u as int, p as int)) + if carry {
                1nat
            } else {
                0nat
            },
        ),
{
    let ghost full = s@.subrange(u as int, p as int);
    let mut k: usize = u;
    while k + 1 < p && s[k] == '0'
        invariant
            u <= k < p <= s@.len(),
            forall|j: int| u <= j < k ==> s@[j] == '0',
        decreases p - k,
    {
        k = k + 1;
    }
    let ghost t = s@.subrange(k as int, p as int);
    proof {
        let z = s@.subrange(u as int, k as int);
        assert(z + t =~= full);
        lemma_zeros_value(z);
        lemma_value_concat(z, t);
        assert(all_in(t, CharClass::Digit)) by {
            assert forall|j: int| 0 <= j < t.len() implies #[trigger] crate::text::in_class(
                t[j],
                CharClass::Digit,
            ) by {
                assert(t[j] == full[j + k - u]);
            }
        }
    }
    let mut out = String::new();
    if !carry {
        push_slice(&mut out, s, k, p);
        proof {
            lemma_canonical_digits(t);
        }
        assert(out@ =~= t);
        return out;
    }
    let mut j: usize = p;
    while j > k && s[j - 1] == '9'
        invariant
            k <= j <= p <= s@.len(),
            forall|i: int| j <= i < p ==> s@[i] == '9',
        decreases j,
    {
        j = j - 1;
    }
    let ghost nines = s@.subrange(j as int, p as int);
    let ghost zeros = Seq::new((p - j) as nat, |_i: int| '0');
    proof {
        lemma_nines_value(nines);
        lemma_zeros_value(zeros);
    }
    if j == k {
        push_digit(&mut out, 1);
        push_zeros(&mut out, p - k);
        proof {
            assert(nines =~= t);
            let one = seq![digit_char(1)];
            lemma_char_of_digit(1);
            assert(one.drop_last() =~= Seq::<char>::empty());
            lemma_value_concat(one, zeros);
            assert(digits_value(one.drop_last()) == 0);
            assert(digits_value(one) == 1);
            assert(out@ =~= one + zeros);
            assert(digits_value(zeros) == 0);
            assert(digits_value(one + zeros) == 1 * pow10(zeros.len()) + 0);
            assert(1 * pow10(zeros.len()) == pow10(zeros.len()));
            assert(digits_value(out@) == pow10(zeros.len()));
            assert(digits_value(t) + 1 == pow10(zeros.len()));
            assert(all_in(out@, CharClass::Digit));
            lemma_canonical_digits(out@);
        }
    } else {
        let ghost a = s@.subrange(k as int, j - 1);
        let ghost d = s@[j - 1];
        proof {
            assert(crate::text::in_class(t[j - 1 - k], CharClass::Digit));
            assert(t[j - 1 - k] == d);
            lemma_digit_char(d);
        }
        let e = (s[j - 1] as u32 - '0' as u32) as u64;
        push_slice(&mut out, s, k, j - 1);
        push_digit(&mut out, e + 1);
        push_zeros(&mut out, p - j);
        proof {
            let ad = a.push(d);
            assert(ad + nines =~= t);
            assert(ad.drop_last() =~= a);
            lemma_value_concat(ad, nines);
            let a2 = a.push(digit_char((e + 1) as nat));
            lemma_char_of_digit((e + 1) as nat);
            assert(a2.drop_last() =~= a);
            lemma_value_concat(a2, zeros);
            assert(out@ =~= a2 + zeros);
            let va = digits_value(a);
            let pm = pow10(nines.len());
            assert(digits_value(ad) == va * 10 + e);
            assert(digits_value(a2) == va * 10 + (e + 1));
            assert(digits_value(nines) == pm - 1);
            assert(digits_value(t) == (va * 10 + e) * pm + (pm - 1));
            assert(digits_value(out@) == (va * 10 + (e + 1)) * pm);
            assert((va * 10 + e) * pm + (pm - 1) + 1 == (va * 10 + (e + 1)) * pm) by (
            nonlinear_arith);
            assert(all_in(out@, CharClass::Digit)) by {
                assert forall|i: int| 0 <= i < out@.len() implies #[trigger] crate::text::in_class(
                    out@[i],
                    CharClass::Digit,
                ) by {
                    if i < a.len() {
                        assert(out@[i] == t[i]);
                    } else if i > a.len() {
                        assert(out@[i] == '0');
                    }
                }
            }
            if j - 1 > k {
                assert(out@[0] == t[0]);
            }
            lemma_canonical_digits(out@);
        }
    }
    out
}

/// The decimal field `s[a..b]`, kept to three decimals.
fn parse_fixed(s: &Vec<char>, a: usize, b: usize) -> (r: Fixed3)
    requires
        a < b <= s@.len(),
        is_decimal(s@.subrange(a as int, b as int)),
    ensures
        r@ == fixed_of(s@.subrange(a as int, b as int)),
{
    let ghost t = s@.subrange(a as int, b as int);
    let negative = s[a] == '-';
    let u: usize = if negative {
        a + 1
    } else {
        a
    };
    let ghost bs = s@.subrange(u as int, b as int);
    assert(unsigned_part(t) =~= bs);
    let p = scan(s, u, CharClass::Digit);
    proof {
        lemma_run_end_in_slice(s@, u as int, u as int, b as int, CharClass::Digit);
        lemma_all_in_slice(s@, u as int, p as int, CharClass::Digit);
        assert(bs.take(p - u) =~= s@.subrange(u as int, p as int));
    }
    let ghost f = bs.skip(p - u + 1);
    assert(f =~= s@.subrange(p + 1, b as int));
    proof {
        assert(bs[p - u] == s@[p as int]);
        lemma_run_end_in_slice(s@, u as int, p + 1, b as int, CharClass::Digit);
        lemma_all_in_slice(s@, p + 1, b as int, CharClass::Digit);
    }
    let mut frac: u64 = 0;
    let mut j: usize = 0;
    while j < 3
        invariant
            j <= 3,
            p + 1 < b <= s@.len(),
            f == s@.subrange(p + 1, b as int),
            all_in(f, CharClass::Digit),
            frac as nat == (if j > 0 { digit_at(f, 0) * 100 } else { 0 }) + (if j > 1 {
                digit_at(f, 1) * 10
            } else {
                0
            }) + (if j > 2 { digit_at(f, 2) } else { 0 }),
            frac <= 999,
        decreases 3 - j,
    {
        let mut d: u64 = 0;
        if j < b - p - 1 {
            assert(crate::text::in_class(f[j as int], CharClass::Digit));
            d = (s[p + 1 + j] as u32 - '0' as u32) as u64;
        }
        if j == 0 {
            frac = frac + d * 100;
        } else if j == 1 {
            frac = frac + d * 10;
        } else {
            frac = frac + d;
        }
        j = j + 1;
    }
    if 3 < b - p - 1 {
        assert(crate::text::in_class(f[3], CharClass::Digit));
        if s[p + 4] >= '5' {
            frac = frac + 1;
        }
    }
    let carry = frac == 1000;
    let whole = whole_text(s, u, p, carry);
    let milli = (frac % 1000) as u16;
    proof {
        let w = digits_value(s@.subrange(u as int, p as int));
        let c: nat = if carry { 1 } else { 0 };
        assert(decimal_milli(t) == w * 1000 + frac);
        assert((w * 1000 + frac) / 1000 == w + c && (w * 1000 + frac) % 1000 == frac % 1000) by (
        nonlinear_arith)
            requires
                frac <= 1000,
                c == (if frac == 1000 { 1nat } else { 0nat }),
        ;
    }
    Fixed3 { negative, whole, milli }
}

/// The characters of `input`, one by one.
fn chars_of(input: &str) -> (r: Vec<char>)
    ensures
        r@ == input@,
{
    let n = input.unicode_len();
    let mut v: Vec<char> = Vec::new();
    let mut i: usize = 0;
    while i < n
        invariant
            i <= n,
            n == input@.len(),
            v@ == input@.take(i as int),
        decreases n - i,
    {
        v.push(input.get_char(i));
        i = i + 1;
        assert(v@ =~= input@.take(i as int));
    }
    assert(input@.take(n as int) =~= input@);
    v
}

/// Where the ten fields of a line stand in it, as `(start, end)` pairs.
fn field_bounds(s: &Vec<char>) -> (r: Option<Vec<(usize, usize)>>)
    ensures
        match r {
            Some(v) => {
                &&& line_fields(s@) == Some(slices(s@, v@))
                &&& v@.len() == 10
                &&& forall|j: int|
                    0 <= j < 10 ==> #[trigger] v@[j].0 <= v@[j].1 && v@[j].1 <= s@.len()
                &&& forall|j: int| 0 <= j < 10 ==> shape_ok(#[trigger] slices(s@, v@)[j], j)
            },
            None => line_fields(s@) is None,
        },
{
    let mut v: Vec<(usize, usize)> = Vec::new();
    let mut i: usize = 0;
    let mut k: usize = 0;
    while k < 9
        invariant
            k <= 9,
            v@.len() == k,
            i <= s@.len(),
            forall|j: int| 0 <= j < k ==> #[trigger] v@[j].0 <= v@[j].1 && v@[j].1 <= s@.len(),
            forall|j: int| 0 <= j < k ==> shape_ok(#[trigger] slices(s@, v@)[j], j),
            line_fields(s@) == prefixed(slices(s@, v@), fields_from(s@, i as int, k as int)),
        decreases 9 - k,
    {
        match next_field(s, i, k) {
            None => {
                return None;
            },
            Some((e, n)) => {
                let ghost old_v = v@;
                let ghost t = s@.subrange(i as int, e as int);
                let ghost rest = fields_from(s@, n as int, k + 1);
                assert(fields_from(s@, i as int, k as int) == prefixed(seq![t], rest));
                v.push((i, e));
                assert(slices(s@, v@) =~= slices(s@, old_v) + seq![t]);
                proof {
                    if let Some(r) = rest {
                        assert(slices(s@, old_v) + (seq![t] + r) =~= slices(s@, v@) + r);
                    }
                }
                i = n;
                k = k + 1;
            },
        }
    }
    let e = scan(s, i, CharClass::Digit);
    if e <= i {
        return None;
    }
    let ghost old_v = v@;
    v.push((i, e));
    assert(slices(s@, v@) =~= slices(s@, old_v) + seq![s@.subrange(i as int, e as int)]);
    proof {
        crate::text::lemma_run_end_bounds(s@, i as int, CharClass::Digit);
        assert(shape_ok(slices(s@, v@)[9], 9));
    }
    Some(v)
}

/// Whether `s[a..b]` is the record type of a primary record.
fn is_atom_literal(s: &Vec<char>, a: usize, b: usize) -> (r: bool)
    requires
        a <= b <= s@.len(),
    ensures
        r == (s@.subrange(a as int, b as int) == atom_literal()),
{
    let ghost t = s@.subrange(a as int, b as int);
    let r = b - a == 4 && s[a] == 'A' && s[a + 1] == 'T' && s[a + 2] == 'O' && s[a + 3] == 'M';
    proof {
        if r {
            assert(t =~= atom_literal());
        }
        if t == atom_literal() {
            assert(t.len() == 4);
            assert(t[0] == 'A' && t[1] == 'T' && t[2] == 'O' && t[3] == 'M');
        }
    }
    r
}

/// The integer field `s[a..b]`, where it fits in a `usize`.
fn parse_count(s: &Vec<char>, a: usize, b: usize) -> (r: Option<usize>)
    requires
        a <= b <= s@.len(),
        all_in(s@.subrange(a as int, b as int), CharClass::Digit),
    ensures
        match r {
            Some(n) => n as nat == digits_value(s@.subrange(a as int, b as int)),
            None => !fits_usize(digits_value(s@.subrange(a as int, b as int))),
        },
{
    match parse_number(s, a, b) {
        Some(n) => {
            if n <= usize::MAX as u64 {
                Some(n as usize)
            } else {
                None
            }
        },
        None => None,
    }
}

/// Reads coordinate records from lines of text.
pub struct AtomParser {}

impl AtomParser {
    /// A parser for the record grammar.
    pub fn new() -> Self {
        AtomParser {  }
    }

    /// The record that `input` gives, or `None` where the line does not match the
    /// grammar or one of its integer fields does not fit in a `usize`.
    pub fn parse(&self, input: &str) -> (r: Option<Atom>)
        ensures
            match r {
                Some(a) => parse_line(input@) == Some(a@),
                None => parse_line(input@) is None,
            },
    {
        let s = chars_of(input);
        let v = match field_bounds(&s) {
            Some(v) => v,
            None => {
                return None;
            },
        };
        let ghost ts = slices(s@, v@);
        assert(forall|j: int| 0 <= j < 10 ==> ts[j] == s@.subrange(v@[j].0 as int, v@[j].1 as int));
        assert(forall|j: int| 0 <= j < 10 ==> shape_ok(#[trigger] ts[j], j));
        assert(v@[0].0 <= v@[0].1 && v@[1].0 <= v@[1].1 && v@[2].0 <= v@[2].1 && v@[3].0 <= v@[3].1);
        assert(v@[4].0 <= v@[4].1 && v@[5].0 <= v@[5].1 && v@[6].0 <= v@[6].1 && v@[7].0 <= v@[7].1);
        assert(v@[8].0 <= v@[8].1 && v@[9].0 <= v@[9].1);
        assert(shape_ok(ts[1], 1) && shape_ok(ts[2], 2) && shape_ok(ts[4], 4) && shape_ok(ts[5], 5));
        assert(shape_ok(ts[6], 6) && shape_ok(ts[7], 7) && shape_ok(ts[8], 8) && shape_ok(ts[9], 9));
        let number = match parse_count(&s, v[1].0, v[1].1) {
            Some(n) => n,
            None => {
                return None;
            },
        };
        let aa_number = match parse_count(&s, v[4].0, v[4].1) {
            Some(n) => n,
            None => {
                return None;
            },
        };
        let second_to_last = match parse_count(&s, v[8].0, v[8].1) {
            Some(n) => n,
            None => {
                return None;
            },
        };
        let last = match parse_count(&s, v[9].0, v[9].1) {
            Some(n) => n,
            None => {
                return None;
            },
        };
        let x = parse_fixed(&s, v[5].0, v[5].1);
        let y = parse_fixed(&s, v[6].0, v[6].1);
        let z = parse_fixed(&s, v[7].0, v[7].1);
        let atom_type = if is_atom_literal(&s, v[0].0, v[0].1) {
            AtomType::Atom
        } else {
            AtomType::Other
        };
        let name = String::from_str(input.substring_char(v[2].0, v[2].1));
        let kind = String::from_str(input.substring_char(v[2].0, v[2].0 + 1));
        let aa_name = String::from_str(input.substring_char(v[3].0, v[3].1));
        assert(ts[2].take(1) =~= s@.subrange(v@[2].0 as int, v@[2].0 + 1));
        let atom = Atom {
            atom_type,
            number,
            name,
            kind,
            aa_name,
            aa_number,
            coordinate: Coordinate { x, y, z },
            second_to_last,
            last,
        };
        assert(record_of(ts) == Some(atom@));
        Some(atom)
    }
}

} // verus!
