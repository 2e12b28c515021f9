use pdb_atoms::formatter::{format_atom, format_atoms};
use pdb_atoms::parser::AtomParser;
use pdb_atoms::record::{Atom, AtomType};

fn parse(line: &str) -> Option<Atom> {
    AtomParser::new().parse(line)
}

fn short_line(t: &str, n: usize, name: &str, aa: &str, aa_n: usize, x: f64, y: f64, z: f64, a: usize, b: usize) -> String {
    format!(
        "{:<5}{:>6}  {:<3}{:>4} A{:>4}{:>12.3}{:>8.3}{:>8.3}{:>6.2}{:>6.2}{:>12}\n",
        t, n, name, aa, aa_n, x, y, z, a as f64, b as f64, &name[0..1]
    )
}

fn long_line(t: &str, n: usize, name: &str, aa: &str, aa_n: usize, x: f64, y: f64, z: f64, a: usize, b: usize) -> String {
    format!(
        "{:<5}{:>6} {:<5}{:>3} A{:>4}{:>12.3}{:>8.3}{:>8.3}{:>6.2}{:>6.2}{:>12}\n",
        t, n, name, aa, aa_n, x, y, z, a, b, &name[0..1]
    )
}

#[test]
fn primary_record_fields() {
    let a = parse("ATOM 1 N MET 1 12.345 -3.210 0.000 1 0").unwrap();
    assert!(a.atom_type == AtomType::Atom);
    assert_eq!(a.number, 1);
    assert_eq!(a.name, "N");
    assert_eq!(a.kind, "N");
    assert_eq!(a.aa_name, "MET");
    assert_eq!(a.aa_number, 1);
    assert!(!a.coordinate.x.negative);
    assert_eq!(a.coordinate.x.whole, "12");
    assert_eq!(a.coordinate.x.milli, 345);
    assert!(a.coordinate.y.negative);
    assert_eq!(a.coordinate.y.whole, "3");
    assert_eq!(a.coordinate.y.milli, 210);
    assert_eq!(a.coordinate.z.whole, "0");
    assert_eq!(a.coordinate.z.milli, 0);
    assert_eq!(a.second_to_last, 1);
    assert_eq!(a.last, 0);
}

#[test]
fn primary_record_short_layout() {
    let a = parse("ATOM 1 N MET 1 12.345 -3.210 0.000 1 0").unwrap();
    let line = format_atom(&a);
    assert_eq!(
        line,
        "ATOM      1  N   MET A   1      12.345  -3.210   0.000  1.00  0.00           N\n"
    );
    assert_eq!(line, short_line("ATOM", 1, "N", "MET", 1, 12.345, -3.210, 0.0, 1, 0));
}

#[test]
fn decimal_trailing_fields_do_not_match() {
    // The two trailing fields must be plain digit strings.
    assert!(parse("ATOM 1 N MET 1 12.345 -3.210 0.000 1.00 0.00").is_none());
}

#[test]
fn three_character_name_takes_short_layout() {
    let a = parse("ATOM 7 CA1 GLY 2 -1.500 22.000 3.250 1 20").unwrap();
    let line = format_atom(&a);
    assert_eq!(line, short_line("ATOM", 7, "CA1", "GLY", 2, -1.5, 22.0, 3.25, 1, 20));
    assert!(line.contains("  CA1 GLY A"));
    assert!(line.contains("  1.00 20.00"));
}

#[test]
fn four_character_name_takes_long_layout() {
    let a = parse("ATOM 12 HG21 THR 5 1.000 2.000 3.000 1 0").unwrap();
    let line = format_atom(&a);
    assert_eq!(
        line,
        "ATOM     12 HG21 THR A   5       1.000   2.000   3.000     1     0           H\n"
    );
    assert_eq!(line, long_line("ATOM", 12, "HG21", "THR", 5, 1.0, 2.0, 3.0, 1, 0));
}

#[test]
fn non_numeric_serial_does_not_match() {
    assert!(parse("ATOM abc N MET 1 1.0 1.0 1.0 1 1").is_none());
}

#[test]
fn empty_and_short_lines_do_not_match() {
    assert!(parse("").is_none());
    assert!(parse("ATOM 1 N MET 1 1.0 1.0 1.0 1").is_none());
    assert!(parse(" ATOM 1 N MET 1 1.0 1.0 1.0 1 1").is_none());
    assert!(parse("ATOM 1 N MET 1 1 1.0 1.0 1 1").is_none());
    assert!(parse("ATOM 1 N MET 1 .5 1.0 1.0 1 1").is_none());
    assert!(parse("ATOM 1 N MET 1 1. 1.0 1.0 1 1").is_none());
    assert!(parse("AT-OM 1 N MET 1 1.0 1.0 1.0 1 1").is_none());
}

#[test]
fn other_record_types_are_written_as_othr() {
    let h = parse("HETATM 3 O HOH 9 0.100 0.200 0.300 1 1").unwrap();
    assert!(h.atom_type == AtomType::Other);
    assert!(format_atom(&h).starts_with("OTHR "));
    let l = parse("atom 3 O HOH 9 0.100 0.200 0.300 1 1").unwrap();
    assert!(l.atom_type == AtomType::Other);
    assert!(format_atom(&l).starts_with("OTHR "));
    let a = parse("ATOM 3 O HOH 9 0.100 0.200 0.300 1 1").unwrap();
    assert!(format_atom(&a).starts_with("ATOM "));
}

#[test]
fn element_symbol_is_first_character_of_name() {
    for name in ["C", "CA", "CB2", "HG21"] {
        let line = format!("ATOM 1 {} ALA 1 0.0 0.0 0.0 1 1", name);
        let a = parse(&line).unwrap();
        assert_eq!(a.kind, name[0..1].to_string());
    }
}

#[test]
fn trailing_text_is_ignored() {
    let a = parse("ATOM 1 N MET 1 1.0 2.0 3.0 4 5 extra text").unwrap();
    assert_eq!(a.last, 5);
    let b = parse("ATOM 1 N MET 1 1.0 2.0 3.0 4 56abc").unwrap();
    assert_eq!(b.last, 56);
    let c = parse("ATOM 1 N MET 1 1.0 2.0 3.0 4 5.5").unwrap();
    assert_eq!(c.last, 5);
}

#[test]
fn separators_may_be_any_white_space() {
    let a = parse("ATOM\t1   N\u{3000}MET 1 1.0 2.0 3.0 4 5").unwrap();
    assert_eq!(a.name, "N");
    assert_eq!(a.aa_name, "MET");
}

#[test]
fn coordinates_round_to_three_decimals() {
    let a = parse("ATOM 1 N MET 1 1.2346 -0.0001 7.5 1 1").unwrap();
    assert_eq!(a.coordinate.x.whole, "1");
    assert_eq!(a.coordinate.x.milli, 235);
    assert!(a.coordinate.y.negative);
    assert_eq!(a.coordinate.y.whole, "0");
    assert_eq!(a.coordinate.y.milli, 0);
    assert_eq!(a.coordinate.z.whole, "7");
    assert_eq!(a.coordinate.z.milli, 500);
    let line = format_atom(&a);
    assert!(line.contains("       1.235  -0.000   7.500"));
    let b = parse("ATOM 1 N MET 1 9.9996 0.12 0.3 1 1").unwrap();
    assert_eq!(b.coordinate.x.whole, "10");
    assert_eq!(b.coordinate.x.milli, 0);
    assert!(format_atom(&b).contains("      10.000   0.120   0.300"));
}

#[test]
fn rounding_carries_into_the_whole_part() {
    let a = parse("ATOM 1 N MET 1 0999.9995 -99.99951 007.25 1 1").unwrap();
    assert_eq!(a.coordinate.x.whole, "1000");
    assert_eq!(a.coordinate.x.milli, 0);
    assert_eq!(a.coordinate.y.whole, "100");
    assert!(a.coordinate.y.negative);
    assert_eq!(a.coordinate.z.whole, "7");
    assert_eq!(a.coordinate.z.milli, 250);
    assert!(format_atom(&a).contains("    1000.000-100.000   7.250"));
}

#[test]
fn large_coordinates_are_kept_whole() {
    let a = parse("A 1 N M 1 99999999999999999.0 0.0 123456789012345678901234567890.5 1 1").unwrap();
    assert_eq!(a.coordinate.x.whole, "99999999999999999");
    assert_eq!(a.coordinate.z.whole, "123456789012345678901234567890");
    assert_eq!(a.coordinate.z.milli, 500);
    assert!(format_atom(&a).contains("99999999999999999.000   0.000123456789012345678901234567890.500"));
}

#[test]
fn words_may_use_any_script() {
    let a = parse("HÉTATM 1 Ñ MÉT 1 1.0 1.0 1.0 1 1").unwrap();
    assert!(a.atom_type == AtomType::Other);
    assert_eq!(a.name, "Ñ");
    assert_eq!(a.kind, "Ñ");
    assert_eq!(a.aa_name, "MÉT");
    assert!(parse("AT\u{2014}OM 1 N MET 1 1.0 1.0 1.0 1 1").is_none());
    assert!(parse("ATOM 1 N M\u{00E9}-T 1 1.0 1.0 1.0 1 1").is_none());
}

#[test]
fn integers_too_large_do_not_match() {
    assert!(parse("ATOM 123456789012345678901234567890 N MET 1 1.0 2.0 3.0 4 5").is_none());
    assert!(parse("ATOM 1 N MET 1 1.0 2.0 3.0 4 123456789012345678901234567890").is_none());
}

#[test]
fn wide_values_overflow_their_columns() {
    let a = parse("ATOM 12345678 N MET 1 1.0 2.0 3.0 1234 5").unwrap();
    let line = format_atom(&a);
    assert!(line.starts_with("ATOM 12345678  N"));
    assert!(line.contains("1234.00  5.00"));
}

#[test]
fn long_names_are_refused_by_the_formatter() {
    let good = parse("ATOM 1 N MET 1 1.0 2.0 3.0 4 5").unwrap();
    let bad = parse("ATOM 2 CA123 MET 1 1.0 2.0 3.0 4 5").unwrap();
    assert_eq!(bad.name, "CA123");
    let r = format_atoms(&vec![good, bad]);
    assert_eq!(r.unwrap_err().index, 1);
}

#[test]
fn records_are_written_in_input_order() {
    let lines = [
        "ATOM 1 N MET 1 1.0 2.0 3.0 1 0",
        "not a record",
        "HETATM 2 HG21 THR 2 -1.0 -2.0 -3.0 1 1",
    ];
    let p = AtomParser::new();
    let atoms: Vec<Atom> = lines.iter().filter_map(|l| p.parse(l)).collect();
    assert_eq!(atoms.len(), 2);
    let text = format_atoms(&atoms).unwrap();
    let expected = short_line("ATOM", 1, "N", "MET", 1, 1.0, 2.0, 3.0, 1, 0)
        + &long_line("OTHR", 2, "HG21", "THR", 2, -1.0, -2.0, -3.0, 1, 1);
    assert_eq!(text, expected);
    assert_eq!(format_atoms(&Vec::new()).unwrap(), "");
}

#[test]
fn formatted_lines_do_not_parse_again() {
    // The chain column stands where the grammar asks for the group number.
    let a = parse("ATOM 1 N MET 1 12.345 -3.210 0.000 1 0").unwrap();
    let line = format_atom(&a);
    assert!(parse(line.trim_end()).is_none());
}
