//! The library emitter: one unit per group, one pin per record, laid out on
//! the two sides of a body and written as a symbol library document.

use crate::group::Group;
use crate::record::{record_views, Fields};
use crate::text::{concat, concat_first, decimal, push_decimal};
use vstd::prelude::*;
use vstd::string::StringExecFns;

verus! {

/// Why a document could not be written.
#[derive(Clone, Copy, Debug, PartialEq, Eq, Structural)]
pub enum EmitError {
    /// A record has no field `Pin`.
    MissingPin,
    /// A record has the field `Pin` but no field `Pin Name`.
    MissingPinName,
}

/// The name of the field that holds a pin's designator.
pub open spec fn pin_field() -> Seq<char> {
    "Pin"@
}

/// The name of the field that holds a pin's display name.
pub open spec fn name_field() -> Seq<char> {
    "Pin Name"@
}

/// Whether pin `i` of a unit of `size` pins stands on the left edge and
/// faces right. The first half of the pins does, rounded down.
pub open spec fn faces_right(i: nat, size: nat) -> bool {
    i < size / 2
}

/// The horizontal position of pin `i` of a unit of `size` pins.
pub open spec fn pin_x(i: nat, size: nat) -> nat {
    if faces_right(i, size) {
        0
    } else {
        3000
    }
}

/// How far below the top pin `i` of a unit of `size` pins stands. The
/// document holds this number behind a minus sign.
pub open spec fn pin_y(i: nat, size: nat) -> nat {
    if faces_right(i, size) {
        i * 100
    } else {
        ((i - size / 2) * 100) as nat
    }
}

/// How far below the top the body of a unit of `size` pins ends.
pub open spec fn body_extent(size: nat) -> nat {
    size / 2 * 100 + 50
}

/// The line that draws the body of unit `unit`, which has `size` pins.
pub open spec fn body_line(size: nat, unit: nat) -> Seq<char> {
    "S 150 150 2850 -"@ + decimal(body_extent(size)) + " "@ + decimal(unit) + " 1 0 f\n"@
}

/// The line of a pin with display name `name` and designator `pin`, which is
/// pin `i` of the `size` pins of unit `unit`.
pub open spec fn pin_text(name: Seq<char>, pin: Seq<char>, i: nat, size: nat, unit: nat) -> Seq<
    char,
> {
    "X "@ + name + " "@ + pin + " "@ + decimal(pin_x(i, size)) + " -"@ + decimal(pin_y(i, size))
        + " 150 "@ + (if faces_right(i, size) {
        "R"@
    } else {
        "L"@
    }) + " 50 50 "@ + decimal(unit) + " 1 P\n"@
}

/// The pin lines of a unit, one for each record and in the order of the
/// records.
pub open spec fn pin_lines(records: Seq<Fields>, unit: nat) -> Seq<Seq<char>> {
    Seq::new(
        records.len(),
        |i: int|
            pin_text(
                records[i][name_field()],
                records[i][pin_field()],
                i as nat,
                records.len(),
                unit,
            ),
    )
}

/// The lines of a unit: its body, then its pins.
pub open spec fn unit_lines(records: Seq<Fields>, unit: nat) -> Seq<Seq<char>> {
    seq![body_line(records.len(), unit)] + pin_lines(records, unit)
}

/// The text of each unit. Units are numbered from 1 in the order of the
/// groups.
pub open spec fn unit_texts(units: Seq<Seq<Fields>>) -> Seq<Seq<char>> {
    Seq::new(units.len(), |g: int| concat(unit_lines(units[g], (g + 1) as nat)))
}

/// What stands before the units: the library header, the definition of the
/// symbol with its name and the number of its units, and the four fields.
pub open spec fn prologue(symbol_name: Seq<char>, unit_count: nat) -> Seq<char> {
    "EESchema-LIBRARY Version 2.4\n#encoding utf-8\n"@ + "DEF "@ + symbol_name + " U 0 40 Y Y "@
        + decimal(unit_count) + " L N\n"@ + "F0 \"U\" 0 300 50 H V C CNN\n"@
        + "F1 \"FPGA\" 0 200 50 H V C CNN\n"@ + "F2 \"\" 0 0 50 H I C CNN\n"@
        + "F3 \"\" 0 0 50 H I C CNN\n"@ + "DRAW\n"@
}

/// What stands behind the units.
pub open spec fn epilogue() -> Seq<char> {
    "ENDDRAW\n"@ + "ENDDEF\n"@ + "#\n#End Library\n"@
}

/// The document for `units`, each the records of one group.
pub open spec fn document(units: Seq<Seq<Fields>>, symbol_name: Seq<char>) -> Seq<char> {
    prologue(symbol_name, units.len()) + concat(unit_texts(units)) + epilogue()
}

/// What a record lacks of what a pin needs, the designator being looked for
/// first.
pub open spec fn record_defect(r: Fields) -> Option<EmitError> {
    if !r.contains_key(pin_field()) {
        Some(EmitError::MissingPin)
    } else if !r.contains_key(name_field()) {
        Some(EmitError::MissingPinName)
    } else {
        None
    }
}

/// The defect of the first defective record among the first `n` of
/// `records`.
pub open spec fn defect_in(records: Seq<Fields>, n: nat) -> Option<EmitError>
    decreases n,
{
    if n == 0 {
        None
    } else {
        match defect_in(records, (n - 1) as nat) {
            Some(e) => Some(e),
            None => record_defect(records[n - 1]),
        }
    }
}

/// The defect of the first defective record among the first `n` of `units`.
pub open spec fn defect_among(units: Seq<Seq<Fields>>, n: nat) -> Option<EmitError>
    decreases n,
{
    if n == 0 {
        None
    } else {
        match defect_among(units, (n - 1) as nat) {
            Some(e) => Some(e),
            None => defect_in(units[n - 1], units[n - 1].len()),
        }
    }
}

/// The defect of the first defective record, in the order of the document.
pub open spec fn first_defect(units: Seq<Seq<Fields>>) -> Option<EmitError> {
    defect_among(units, units.len())
}

/// The records of each group.
pub open spec fn unit_views(groups: Seq<Group>) -> Seq<Seq<Fields>> {
    Seq::new(groups.len(), |g: int| record_views(groups[g].records@))
}

/// A defect that is found among the first records is the defect of the unit.
pub proof fn lemma_defect_in_stays(records: Seq<Fields>, k: nat, n: nat)
    requires
        k <= n,
        defect_in(records, k) is Some,
    ensures
        defect_in(records, n) == defect_in(records, k),
    decreases n,
{
    if k < n {
        lemma_defect_in_stays(records, k, (n - 1) as nat);
    }
}

/// A defect that is found among the first units is the defect of the whole.
pub proof fn lemma_defect_among_stays(units: Seq<Seq<Fields>>, k: nat, n: nat)
    requires
        k <= n,
        defect_among(units, k) is Some,
    ensures
        defect_among(units, n) == defect_among(units, k),
    decreases n,
{
    if k < n {
        lemma_defect_among_stays(units, k, (n - 1) as nat);
    }
}

/// The document has one unit for each group and, in each unit, one body and
/// one pin for each record of the group; the number of units that it declares
/// is the number of groups.
pub proof fn lemma_emission_counts(units: Seq<Seq<Fields>>, symbol_name: Seq<char>)
    ensures
        unit_texts(units).len() == units.len(),
        forall|g: int|
            0 <= g < units.len() ==> (#[trigger] pin_lines(units[g], (g + 1) as nat)).len()
                == units[g].len(),
        forall|g: int|
            0 <= g < units.len() ==> (#[trigger] unit_lines(units[g], (g + 1) as nat)).len()
                == units[g].len() + 1,
        document(units, symbol_name) == prologue(symbol_name, units.len()) + concat(
            unit_texts(units),
        ) + epilogue(),
{
}

/// Writes the body line of a unit at the end of `out`.
fn push_body_line(out: &mut String, size: usize, unit: u128)
    ensures
        final(out)@ == old(out)@ + body_line(size as nat, unit as nat),
{
    out.append("S 150 150 2850 -");
    push_decimal(out, (size / 2) as u128 * 100 + 50);
    out.append(" ");
    push_decimal(out, unit);
    out.append(" 1 0 f\n");
    assert(out@ =~= old(out)@ + body_line(size as nat, unit as nat));
}

/// Writes the line of one pin at the end of `out`.
fn push_pin_line(out: &mut String, name: &str, pin: &str, i: usize, size: usize, unit: u128)
    requires
        i < size,
    ensures
        final(out)@ == old(out)@ + pin_text(name@, pin@, i as nat, size as nat, unit as nat),
{
    let half = size / 2;
    out.append("X ");
    out.append(name);
    out.append(" ");
    out.append(pin);
    out.append(" ");
    if i < half {
        push_decimal(out, 0);
        out.append(" -");
        push_decimal(out, i as u128 * 100);
        out.append(" 150 ");
        out.append("R");
    } else {
        push_decimal(out, 3000);
        out.append(" -");
        push_decimal(out, (i - half) as u128 * 100);
        out.append(" 150 ");
        out.append("L");
    }
    out.append(" 50 50 ");
    push_decimal(out, unit);
    out.append(" 1 P\n");
    assert(out@ =~= old(out)@ + pin_text(name@, pin@, i as nat, size as nat, unit as nat));
}

/// Writes the symbol library document for `groups` under the name
/// `symbol_name`: one unit for each group, numbered from 1 in the order of the
/// groups, with one pin for each record. The first half of a unit's pins,
/// rounded down, stands on the left edge, the rest on the right edge.
///
/// A record without the field `Pin` or the field `Pin Name` stops the whole
/// emission; the first such record in the order of the document decides which
/// error is returned.
pub fn emit(groups: &Vec<Group>, symbol_name: &str) -> (r: Result<String, EmitError>)
    ensures
        match r {
            Ok(text) => first_defect(unit_views(groups@)) is None && text@ == document(
                unit_views(groups@),
                symbol_name@,
            ),
            Err(e) => first_defect(unit_views(groups@)) == Some(e),
        },
{
    let ghost units = unit_views(groups@);
    let mut text = String::new();
    text.append("EESchema-LIBRARY Version 2.4\n#encoding utf-8\n");
    text.append("DEF ");
    text.append(symbol_name);
    text.append(" U 0 40 Y Y ");
    push_decimal(&mut text, groups.len() as u128);
    text.append(" L N\n");
    text.append("F0 \"U\" 0 300 50 H V C CNN\n");
    text.append("F1 \"FPGA\" 0 200 50 H V C CNN\n");
    text.append("F2 \"\" 0 0 50 H I C CNN\n");
    text.append("F3 \"\" 0 0 50 H I C CNN\n");
    text.append("DRAW\n");
    let ghost head = prologue(symbol_name@, units.len());
    assert(text@ =~= head);
    let mut g: usize = 0;
    while g < groups.len()
        invariant
            g <= groups.len(),
            units == unit_views(groups@),
            defect_among(units, g as nat) is None,
            text@ == head + concat_first(unit_texts(units), g as nat),
        decreases groups.len() - g,
    {
        let records = &groups[g].records;
        let size = records.len();
        let unit = g as u128 + 1;
        let ghost base = text@;
        let ghost lines = unit_lines(units[g as int], unit as nat);
        assert(units[g as int] == record_views(records@));
        push_body_line(&mut text, size, unit);
        assert(text@ =~= base + concat_first(lines, 1)) by {
            assert(concat_first(lines, 0) =~= Seq::<char>::empty());
            assert(concat_first(lines, 1) =~= lines[0]);
        }
        let mut i: usize = 0;
        while i < size
            invariant
                i <= size,
                size == records.len(),
                g < groups.len(),
                unit == g + 1,
                units == unit_views(groups@),
                units[g as int] == record_views(records@),
                lines == unit_lines(units[g as int], unit as nat),
                defect_among(units, g as nat) is None,
                defect_in(units[g as int], i as nat) is None,
                text@ == base + concat_first(lines, (i + 1) as nat),
            decreases size - i,
        {
            let record = &records[i];
            assert(units[g as int][i as int] == record@);
            let pin = match record.get("Pin") {
                Some(p) => p,
                None => {
                    proof {
                        lemma_defect_in_stays(units[g as int], (i + 1) as nat, size as nat);
                        lemma_defect_among_stays(units, (g + 1) as nat, units.len());
                    }
                    return Err(EmitError::MissingPin);
                },
            };
            let name = match record.get("Pin Name") {
                Some(n) => n,
                None => {
                    proof {
                        lemma_defect_in_stays(units[g as int], (i + 1) as nat, size as nat);
                        lemma_defect_among_stays(units, (g + 1) as nat, units.len());
                    }
                    return Err(EmitError::MissingPinName);
                },
            };
            let ghost before = text@;
            push_pin_line(&mut text, name.as_str(), pin.as_str(), i, size, unit);
            proof {
                assert(lines[i + 1] == pin_lines(units[g as int], unit as nat)[i as int]);
                assert(text@ =~= base + concat_first(lines, (i + 2) as nat));
            }
            i += 1;
        }
        proof {
            assert(lines.len() == size + 1);
            assert(unit_texts(units)[g as int] == concat(lines));
            assert(text@ =~= head + concat_first(unit_texts(units), (g + 1) as nat));
        }
        g += 1;
    }
    text.append("ENDDRAW\n");
    text.append("ENDDEF\n");
    text.append("#\n#End Library\n");
    assert(text@ =~= document(units, symbol_name@));
    Ok(text)
}

} // verus!
