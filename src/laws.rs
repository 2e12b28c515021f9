//! Properties that relate the parser and the formatter.

use vstd::prelude::*;
use crate::text::{decimal_digits, CharClass, all_in, in_class, run_end, is_word, lemma_run_end_bounds};
use crate::parser::{
    atom_literal,
    fields_from,
    line_fields,
    parse_line,
    shape_ok,
};
use crate::record::AtomView;
use crate::formatter::{
    format_line,
    line_names,
    pad_left,
    pad_right,
    spaces,
    trailing_text,
    type_text,
};

verus! {

/// Read from position `i`, the fields `k` and after are `10 - k` in number, each in the
/// shape its place asks for.
pub proof fn lemma_fields_shape(s: Seq<char>, i: int, k: int)
    requires
        0 <= k <= 9,
        0 <= i <= s.len(),
        fields_from(s, i, k) is Some,
    ensures
        fields_from(s, i, k)->0.len() == 10 - k,
        forall|j: int|
            0 <= j < 10 - k ==> shape_ok(#[trigger] fields_from(s, i, k)->0[j], k + j),
    decreases 9 - k,
{
    if k < 9 {
        let e = run_end(s, i, CharClass::NonSpace);
        lemma_run_end_bounds(s, i, CharClass::NonSpace);
        let n = run_end(s, e, CharClass::Space);
        lemma_run_end_bounds(s, e, CharClass::Space);
        lemma_fields_shape(s, n, k + 1);
        let r = fields_from(s, n, k + 1)->0;
        let t = s.subrange(i, e);
        assert forall|j: int| 0 <= j < 10 - k implies shape_ok(
            #[trigger] fields_from(s, i, k)->0[j],
            k + j,
        ) by {
            if j > 0 {
                assert(fields_from(s, i, k)->0[j] == r[j - 1]);
            }
        }
    } else {
        lemma_run_end_bounds(s, i, CharClass::Digit);
        assert(shape_ok(fields_from(s, i, k)->0[0], 9));
    }
}

/// The element symbol of a parsed record is the first character of its atom name, and
/// that name is not empty.
pub proof fn lemma_element_symbol(line: Seq<char>)
    requires
        parse_line(line) is Some,
    ensures
        parse_line(line)->0.name.len() >= 1,
        parse_line(line)->0.kind == parse_line(line)->0.name.take(1),
        parse_line(line)->0.kind.len() == 1,
{
    lemma_fields_shape(line, 0, 0);
    assert(shape_ok(line_fields(line)->0[2], 2));
}

/// A parsed record is written out with `ATOM` exactly when its line's record type is
/// `ATOM`, letter for letter, and with `OTHR` otherwise.
pub proof fn lemma_type_literal(line: Seq<char>)
    requires
        parse_line(line) is Some,
    ensures
        format_line(parse_line(line)->0).take(4) == (if line_fields(line)->0[0]
            == atom_literal() {
            seq!['A', 'T', 'O', 'M']
        } else {
            seq!['O', 'T', 'H', 'R']
        }),
{
    let a = parse_line(line)->0;
    let t = type_text(a.primary);
    assert(pad_right(t, 5) =~= t + spaces(1));
    assert(format_line(a).take(4) =~= t);
}

/// A line that is empty, or whose first character is not a word character, gives no
/// record.
pub proof fn lemma_no_match_without_leading_word(line: Seq<char>)
    requires
        line.len() == 0 || !is_word(line[0]),
    ensures
        parse_line(line) is None,
{
    let e = run_end(line, 0, CharClass::NonSpace);
    lemma_run_end_bounds(line, 0, CharClass::NonSpace);
    let t = line.subrange(0, e);
    if e < line.len() && shape_ok(t, 0) {
        assert(in_class(t[0], CharClass::Word));
        assert(t[0] == line[0]);
    }
}

/// Names of one to three characters take the short layout: two spaces, the name in a
/// column of three, the group name in a column of four, and the trailing integers with
/// two decimals. A four-character name takes the long layout: one space, the name and a
/// space, the group name in a column of three, and the trailing integers bare.
pub proof fn lemma_layout_by_name_length(a: AtomView, n: nat)
    requires
        1 <= a.name.len() <= 4,
    ensures
        a.name.len() < 4 ==> line_names(a) == seq![' ', ' '] + a.name + spaces(
            3 - a.name.len(),
        ) + pad_left(a.aa_name, 4),
        a.name.len() < 4 ==> trailing_text(a, n) == decimal_digits(n) + seq!['.', '0', '0'],
        a.name.len() == 4 ==> line_names(a) == seq![' '] + a.name + seq![' '] + pad_left(
            a.aa_name,
            3,
        ),
        a.name.len() == 4 ==> trailing_text(a, n) == decimal_digits(n),
{
    if a.name.len() < 4 {
        assert(spaces(2) =~= seq![' ', ' ']);
        if a.name.len() == 3 {
            assert(a.name + spaces(0) =~= a.name);
        }
    } else {
        assert(spaces(1) =~= seq![' ']);
        assert(spaces(5 - 4) =~= seq![' ']);
    }
}

/// Fields written one after the other, each of the separators between two of them.
pub open spec fn joined(ts: Seq<Seq<char>>, ws: Seq<Seq<char>>) -> Seq<char>
    decreases ts.len(),
{
    if ts.len() == 0 {
        Seq::empty()
    } else if ts.len() == 1 {
        ts[0]
    } else {
        ts[0] + ws[0] + joined(ts.skip(1), ws.skip(1))
    }
}

/// `s` starts with the ten fields of the record grammar, in their shapes, separated by
/// runs of one or more whitespace characters; anything may follow.
pub open spec fn matches_grammar(s: Seq<char>) -> bool {
    exists|ts: Seq<Seq<char>>, ws: Seq<Seq<char>>, rest: Seq<char>|
        {
            &&& ts.len() == 10
            &&& ws.len() == 9
            &&& forall|j: int| 0 <= j < 10 ==> shape_ok(#[trigger] ts[j], j)
            &&& forall|j: int|
                0 <= j < 9 ==> #[trigger] ws[j].len() > 0 && all_in(ws[j], CharClass::Space)
            &&& s == joined(ts, ws) + rest
        }
}

/// The separators and the rest of the line that the fields read from `i` leave.
proof fn lemma_fields_layout(s: Seq<char>, i: int, k: int) -> (res: (Seq<Seq<char>>, Seq<char>))
    requires
        0 <= k <= 9,
        0 <= i <= s.len(),
        fields_from(s, i, k) is Some,
    ensures
        res.0.len() == 9 - k,
        forall|j: int|
            0 <= j < 9 - k ==> #[trigger] res.0[j].len() > 0 && all_in(res.0[j], CharClass::Space),
        s.skip(i) == joined(fields_from(s, i, k)->0, res.0) + res.1,
    decreases 9 - k,
{
    if k < 9 {
        let e = run_end(s, i, CharClass::NonSpace);
        lemma_run_end_bounds(s, i, CharClass::NonSpace);
        let n = run_end(s, e, CharClass::Space);
        lemma_run_end_bounds(s, e, CharClass::Space);
        let (ws1, rest) = lemma_fields_layout(s, n, k + 1);
        lemma_fields_shape(s, n, k + 1);
        let t = s.subrange(i, e);
        let w = s.subrange(e, n);
        let r1 = fields_from(s, n, k + 1)->0;
        let r = fields_from(s, i, k)->0;
        assert(r == seq![t] + r1);
        assert(r.skip(1) =~= r1);
        let ws = seq![w] + ws1;
        assert(ws.skip(1) =~= ws1);
        assert(in_class(s[e], CharClass::Space));
        assert(w.len() > 0);
        assert forall|j: int| 0 <= j < 9 - k implies #[trigger] ws[j].len() > 0 && all_in(
            ws[j],
            CharClass::Space,
        ) by {
            if j > 0 {
                assert(ws[j] == ws1[j - 1]);
            }
        }
        assert(s.skip(i) =~= t + w + s.skip(n));
        assert(joined(r, ws) == t + w + joined(r1, ws1));
        assert(s.skip(i) =~= joined(r, ws) + rest);
        (ws, rest)
    } else {
        let e = run_end(s, i, CharClass::Digit);
        lemma_run_end_bounds(s, i, CharClass::Digit);
        let r = fields_from(s, i, k)->0;
        assert(s.skip(i) =~= r[0] + s.skip(e));
        (Seq::empty(), s.skip(e))
    }
}

/// A line that does not start with the ten fields of the grammar gives no record.
pub proof fn lemma_no_match_outside_grammar(line: Seq<char>)
    requires
        !matches_grammar(line),
    ensures
        parse_line(line) is None,
{
    if line_fields(line) is Some {
        let ts = line_fields(line)->0;
        lemma_fields_shape(line, 0, 0);
        let (ws, rest) = lemma_fields_layout(line, 0, 0);
        assert(line.skip(0) =~= line);
        assert(forall|j: int| 0 <= j < 10 ==> shape_ok(#[trigger] ts[j], j));
        assert(matches_grammar(line));
    }
}

} // verus!
