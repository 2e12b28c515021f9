//! Rendering records to fixed-width lines.
//!
//! Names of one to three characters take the short layout; names of four characters
//! take the long one, in which the name column is wider, the group-name column narrower,
//! and the two trailing integers are written without decimals.

use vstd::prelude::*;
use vstd::string::*;
use crate::record::{AtomType, Fixed3, FixedView, Atom, AtomView};
use crate::text::{digit_char, decimal_digits, push_digit};

verus! {

pub open spec fn spaces(n: int) -> Seq<char> {
    Seq::new(n as nat, |_i: int| ' ')
}

/// `t` right-aligned in a column of width `w`; never cut.
pub open spec fn pad_left(t: Seq<char>, w: int) -> Seq<char> {
    if t.len() >= w {
        t
    } else {
        spaces(w - t.len()) + t
    }
}

/// `t` left-aligned in a column of width `w`; never cut.
pub open spec fn pad_right(t: Seq<char>, w: int) -> Seq<char> {
    if t.len() >= w {
        t
    } else {
        t + spaces(w - t.len())
    }
}

/// A coordinate with three decimals.
pub open spec fn fixed_text(f: FixedView) -> Seq<char> {
    let m = f.milli;
    (if f.negative {
        seq!['-']
    } else {
        Seq::empty()
    }) + f.whole + seq![
        '.',
        digit_char((m / 100) % 10),
        digit_char((m / 10) % 10),
        digit_char(m % 10),
    ]
}

/// An integer written as a number with two decimals.
pub open spec fn hundredths_text(n: nat) -> Seq<char> {
    decimal_digits(n) + seq!['.', '0', '0']
}

/// The record type as written out: `ATOM` for a primary record, `OTHR` for any other.
pub open spec fn type_text(primary: bool) -> Seq<char> {
    if primary {
        seq!['A', 'T', 'O', 'M']
    } else {
        seq!['O', 'T', 'H', 'R']
    }
}

/// The name is four characters long, and the record takes the long layout.
pub open spec fn long_layout(a: AtomView) -> bool {
    a.name.len() == 4
}

/// How a trailing integer is written: with two decimals in the short layout, bare in
/// the long one.
pub open spec fn trailing_text(a: AtomView, n: nat) -> Seq<char> {
    if long_layout(a) {
        decimal_digits(n)
    } else {
        hundredths_text(n)
    }
}

/// The record type and the serial number.
pub open spec fn line_head(a: AtomView) -> Seq<char> {
    pad_right(type_text(a.primary), 5) + pad_left(decimal_digits(a.number), 6)
}

/// The atom name and the group name, with the spaces before them.
pub open spec fn line_names(a: AtomView) -> Seq<char> {
    if long_layout(a) {
        spaces(1) + pad_right(a.name, 5) + pad_left(a.aa_name, 3)
    } else {
        spaces(2) + pad_right(a.name, 3) + pad_left(a.aa_name, 4)
    }
}

/// The chain column, the group number and the three coordinates.
pub open spec fn line_position(a: AtomView) -> Seq<char> {
    seq![' ', 'A'] + pad_left(decimal_digits(a.aa_number), 4) + pad_left(fixed_text(a.x), 12)
        + pad_left(fixed_text(a.y), 8) + pad_left(fixed_text(a.z), 8)
}

/// The two trailing integers, the element symbol and the newline.
pub open spec fn line_tail(a: AtomView) -> Seq<char> {
    pad_left(trailing_text(a, a.second_to_last), 6) + pad_left(trailing_text(a, a.last), 6)
        + pad_left(a.kind, 12) + seq!['\n']
}

/// The line written for one record, its newline included.
pub open spec fn format_line(a: AtomView) -> Seq<char> {
    line_head(a) + line_names(a) + line_position(a) + line_tail(a)
}

/// The lines of a sequence of records, in order.
pub open spec fn format_all(s: Seq<AtomView>) -> Seq<char>
    decreases s.len(),
{
    if s.len() == 0 {
        Seq::empty()
    } else {
        format_all(s.drop_last()) + format_line(s.last())
    }
}

fn push_spaces(out: &mut String, n: usize)
    ensures
        final(out)@ == old(out)@ + spaces(n as int),
{
    let mut i: usize = 0;
    while i < n
        invariant
            i <= n,
            out@ == old(out)@ + spaces(i as int),
        decreases n - i,
    {
        proof {
            reveal_strlit(" ");
        }
        out.append(" ");
        i = i + 1;
        assert(out@ =~= old(out)@ + spaces(i as int));
    }
}

fn push_digits(out: &mut String, n: u64)
    ensures
        final(out)@ == old(out)@ + decimal_digits(n as nat),
    decreases n,
{
    if n >= 10 {
        push_digits(out, n / 10);
        push_digit(out, n % 10);
        assert(out@ =~= old(out)@ + decimal_digits(n as nat));
    } else {
        push_digit(out, n);
    }
}

/// Appends `t` right-aligned in a column of width `w`.
fn push_left(out: &mut String, t: &String, w: usize)
    ensures
        final(out)@ == old(out)@ + pad_left(t@, w as int),
{
    let n = t.as_str().unicode_len();
    if n < w {
        push_spaces(out, w - n);
    }
    out.append(t.as_str());
    assert(out@ =~= old(out)@ + pad_left(t@, w as int));
}

/// Appends `t` left-aligned in a column of width `w`.
fn push_right(out: &mut String, t: &String, w: usize)
    ensures
        final(out)@ == old(out)@ + pad_right(t@, w as int),
{
    let n = t.as_str().unicode_len();
    out.append(t.as_str());
    if n < w {
        push_spaces(out, w - n);
    }
    assert(out@ =~= old(out)@ + pad_right(t@, w as int));
}

fn digits_string(n: u64) -> (r: String)
    ensures
        r@ == decimal_digits(n as nat),
{
    let mut t = String::new();
    push_digits(&mut t, n);
    assert(t@ =~= decimal_digits(n as nat));
    t
}

fn fixed_string(f: &Fixed3) -> (r: String)
    ensures
        r@ == fixed_text(f@),
{
    let mut t = String::new();
    if f.negative {
        proof {
            reveal_strlit("-");
        }
        t.append("-");
    }
    t.append(f.whole.as_str());
    proof {
        reveal_strlit(".");
    }
    t.append(".");
    let m = f.milli as u64;
    push_digit(&mut t, (m / 100) % 10);
    push_digit(&mut t, (m / 10) % 10);
    push_digit(&mut t, m % 10);
    assert(t@ =~= fixed_text(f@));
    t
}

fn trailing_string(long: bool, n: usize) -> (r: String)
    ensures
        r@ == (if long {
            decimal_digits(n as nat)
        } else {
            hundredths_text(n as nat)
        }),
{
    let mut t = digits_string(n as u64);
    if !long {
        proof {
            reveal_strlit(".00");
        }
        t.append(".00");
        assert(t@ =~= hundredths_text(n as nat));
    }
    t
}

fn push_head(out: &mut String, atom: &Atom)
    ensures
        final(out)@ == old(out)@ + line_head(atom@),
{
    let label = match atom.atom_type {
        AtomType::Atom => String::from_str("ATOM"),
        AtomType::Other => String::from_str("OTHR"),
    };
    proof {
        reveal_strlit("ATOM");
        reveal_strlit("OTHR");
    }
    assert(label@ =~= type_text(atom@.primary));
    push_right(out, &label, 5);
    push_left(out, &digits_string(atom.number as u64), 6);
    assert(out@ =~= old(out)@ + line_head(atom@));
}

fn push_names(out: &mut String, atom: &Atom, long: bool)
    requires
        long == long_layout(atom@),
    ensures
        final(out)@ == old(out)@ + line_names(atom@),
{
    if long {
        push_spaces(out, 1);
        push_right(out, &atom.name, 5);
        push_left(out, &atom.aa_name, 3);
    } else {
        push_spaces(out, 2);
        push_right(out, &atom.name, 3);
        push_left(out, &atom.aa_name, 4);
    }
    assert(out@ =~= old(out)@ + line_names(atom@));
}

fn push_position(out: &mut String, atom: &Atom)
    ensures
        final(out)@ == old(out)@ + line_position(atom@),
{
    proof {
        reveal_strlit(" A");
    }
    out.append(" A");
    push_left(out, &digits_string(atom.aa_number as u64), 4);
    push_left(out, &fixed_string(&atom.coordinate.x), 12);
    push_left(out, &fixed_string(&atom.coordinate.y), 8);
    push_left(out, &fixed_string(&atom.coordinate.z), 8);
    assert(out@ =~= old(out)@ + line_position(atom@));
}

fn push_tail(out: &mut String, atom: &Atom, long: bool)
    requires
        long == long_layout(atom@),
    ensures
        final(out)@ == old(out)@ + line_tail(atom@),
{
    proof {
        reveal_strlit("\n");
    }
    push_left(out, &trailing_string(long, atom.second_to_last), 6);
    push_left(out, &trailing_string(long, atom.last), 6);
    push_left(out, &atom.kind, 12);
    out.append("\n");
    assert(out@ =~= old(out)@ + line_tail(atom@));
}

/// The line written for `atom`.
pub fn format_atom(atom: &Atom) -> (r: String)
    requires
        atom@.name.len() < 5,
    ensures
        r@ == format_line(atom@),
{
    let long = atom.name.as_str().unicode_len() == 4;
    let mut out = String::new();
    push_head(&mut out, atom);
    push_names(&mut out, atom, long);
    push_position(&mut out, atom);
    push_tail(&mut out, atom, long);
    assert(out@ =~= format_line(atom@));
    out
}

/// The record at `index` has a name of five characters or more, which no layout fits.
#[derive(Clone, Copy, Debug, PartialEq, Eq, Structural)]
pub struct NameTooLong {
    pub index: usize,
}

pub open spec fn views(atoms: Seq<Atom>) -> Seq<AtomView> {
    atoms.map_values(|a: Atom| a@)
}

/// The lines of all `atoms`, in order; or, where some record's name has five characters
/// or more, the first such record.
pub fn format_atoms(atoms: &Vec<Atom>) -> (r: Result<String, NameTooLong>)
    ensures
        match r {
            Ok(text) => {
                &&& forall|i: int| 0 <= i < atoms@.len() ==> #[trigger] atoms@[i]@.name.len() < 5
                &&& text@ == format_all(views(atoms@))
            },
            Err(e) => {
                &&& e.index < atoms@.len()
                &&& atoms@[e.index as int]@.name.len() >= 5
                &&& forall|i: int| 0 <= i < e.index ==> #[trigger] atoms@[i]@.name.len() < 5
            },
        },
{
    let mut out = String::new();
    let mut i: usize = 0;
    while i < atoms.len()
        invariant
            i <= atoms@.len(),
            forall|j: int| 0 <= j < i ==> #[trigger] atoms@[j]@.name.len() < 5,
            out@ == format_all(views(atoms@.take(i as int))),
        decreases atoms@.len() - i,
    {
        let atom = &atoms[i];
        if atom.name.as_str().unicode_len() >= 5 {
            return Err(NameTooLong { index: i });
        }
        let line = format_atom(atom);
        out.append(line.as_str());
        proof {
            let vs = views(atoms@.take(i + 1));
            assert(vs.drop_last() =~= views(atoms@.take(i as int)));
            assert(vs.last() == atoms@[i as int]@);
        }
        i = i + 1;
    }
    assert(atoms@.take(i as int) =~= atoms@);
    Ok(out)
}

} // verus!
