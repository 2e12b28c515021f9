//! The coordinate record and its mathematical model.

use vstd::prelude::*;

verus! {

/// The two record categories: `ATOM` lines, and every other record type.
#[derive(Clone, Copy, Debug, PartialEq, Eq, Structural)]
pub enum AtomType {
    Atom,
    Other,
}

/// A signed decimal kept to three decimals. `whole` is its integer part in decimal
/// notation, without leading zeros, and `milli` its thousandths, below 1000. A sign is
/// kept on a zero value, as a written `-0.000` has one.
#[derive(Debug)]
pub struct Fixed3 {
    pub negative: bool,
    pub whole: String,
    pub milli: u16,
}

/// What a `Fixed3` holds.
pub struct FixedView {
    pub negative: bool,
    pub whole: Seq<char>,
    pub milli: nat,
}

impl View for Fixed3 {
    type V = FixedView;

    open spec fn view(&self) -> FixedView {
        FixedView { negative: self.negative, whole: self.whole@, milli: self.milli as nat }
    }
}

/// A position in space.
#[derive(Debug)]
pub struct Coordinate {
    pub x: Fixed3,
    pub y: Fixed3,
    pub z: Fixed3,
}

/// One coordinate record. `kind` is the element symbol: the first character of `name`.
#[derive(Debug)]
pub struct Atom {
    pub atom_type: AtomType,
    pub number: usize,
    pub name: String,
    pub kind: String,
    pub aa_name: String,
    pub aa_number: usize,
    pub coordinate: Coordinate,
    pub second_to_last: usize,
    pub last: usize,
}

/// What a record holds, with its text fields as character sequences.
pub struct AtomView {
    pub primary: bool,
    pub number: nat,
    pub name: Seq<char>,
    pub kind: Seq<char>,
    pub aa_name: Seq<char>,
    pub aa_number: nat,
    pub x: FixedView,
    pub y: FixedView,
    pub z: FixedView,
    pub second_to_last: nat,
    pub last: nat,
}

impl View for Atom {
    type V = AtomView;

    open spec fn view(&self) -> AtomView {
        AtomView {
            primary: self.atom_type == AtomType::Atom,
            number: self.number as nat,
            name: self.name@,
            kind: self.kind@,
            aa_name: self.aa_name@,
            aa_number: self.aa_number as nat,
            x: self.coordinate.x@,
            y: self.coordinate.y@,
            z: self.coordinate.z@,
            second_to_last: self.second_to_last as nat,
            last: self.last as nat,
        }
    }
}

} // verus!
