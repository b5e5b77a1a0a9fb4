//! Fixed-point temperatures and the text of a record.

use vstd::prelude::*;

verus! {

/// The byte that ends a record.
pub const NEWLINE: u8 = 10;

/// The byte between a station name and its temperature.
pub const SEMICOLON: u8 = 59;

/// The sign byte of a negative temperature.
pub const MINUS: u8 = 45;

/// The byte between the integer digits and the fractional digit.
pub const POINT: u8 = 46;

/// The byte of the digit zero.
pub const ZERO: u8 = 48;

/// The lowest temperature, in tenths of a degree.
pub const MIN_TENTHS: i32 = -999;

/// The highest temperature, in tenths of a degree.
pub const MAX_TENTHS: i32 = 999;

/// Whether `v` tenths of a degree can be written with at most two integer
/// digits and one fractional digit.
pub open spec fn is_temperature(v: int) -> bool {
    MIN_TENTHS <= v <= MAX_TENTHS
}

/// Whether `b` is an ASCII decimal digit.
pub open spec fn is_digit(b: u8) -> bool {
    ZERO <= b <= ZERO + 9
}

/// The number that the digit byte `b` stands for.
pub open spec fn digit_value(b: u8) -> int {
    b - ZERO
}

/// The byte of the decimal digit `d`.
pub open spec fn digit_byte(d: int) -> u8 {
    (ZERO + d) as u8
}

/// The text of a temperature of `v` tenths: a minus sign if it is negative,
/// the tens digit if there is one, the units digit, a point, the tenths digit.
pub open spec fn temperature_text(v: int) -> Seq<u8> {
    let m = if v < 0 { -v } else { v };
    let sign = if v < 0 { seq![MINUS] } else { Seq::<u8>::empty() };
    let tens = if m >= 100 { seq![digit_byte(m / 100)] } else { Seq::<u8>::empty() };
    sign + tens + seq![digit_byte((m / 10) % 10), POINT, digit_byte(m % 10)]
}

/// The tenths that a temperature text stands for, if it has one of the four
/// shapes `d.d`, `dd.d`, `-d.d` and `-dd.d`.
pub open spec fn temperature_value(text: Seq<u8>) -> Option<int> {
    if text.len() == 3 && is_digit(text[0]) && text[1] == POINT && is_digit(text[2]) {
        Some(10 * digit_value(text[0]) + digit_value(text[2]))
    } else if text.len() == 4 && is_digit(text[0]) && is_digit(text[1]) && text[2] == POINT
        && is_digit(text[3]) {
        Some(100 * digit_value(text[0]) + 10 * digit_value(text[1]) + digit_value(text[3]))
    } else if text.len() == 4 && text[0] == MINUS && is_digit(text[1]) && text[2] == POINT
        && is_digit(text[3]) {
        Some(-(10 * digit_value(text[1]) + digit_value(text[3])))
    } else if text.len() == 5 && text[0] == MINUS && is_digit(text[1]) && is_digit(text[2])
        && text[3] == POINT && is_digit(text[4]) {
        Some(-(100 * digit_value(text[1]) + 10 * digit_value(text[2]) + digit_value(text[4])))
    } else {
        None
    }
}

/// The record read with a temperature text of `width` bytes: the line must be
/// longer than that, with a semicolon right before the text.
pub open spec fn record_with_width(line: Seq<u8>, width: int) -> Option<(Seq<u8>, int)> {
    let cut = line.len() - width - 1;
    if cut >= 0 && line[cut] == SEMICOLON {
        match temperature_value(line.skip(cut + 1)) {
            Some(v) => Some((line.take(cut), v)),
            None => None,
        }
    } else {
        None
    }
}

/// The station name and the temperature of a record, read from its right end.
/// A line that ends in none of the four temperature shapes after a semicolon
/// is no record.
pub open spec fn parse_record(line: Seq<u8>) -> Option<(Seq<u8>, int)> {
    if record_with_width(line, 5) is Some {
        record_with_width(line, 5)
    } else if record_with_width(line, 4) is Some {
        record_with_width(line, 4)
    } else {
        record_with_width(line, 3)
    }
}

/// The temperature of a record is within the range of temperatures.
pub proof fn lemma_parse_in_range(line: Seq<u8>)
    ensures
        parse_record(line) matches Some((_, v)) ==> is_temperature(v),
{
}

/// The bytes of the record of station `name` with a temperature of `v` tenths.
pub open spec fn record_text(name: Seq<u8>, v: int) -> Seq<u8> {
    name + seq![SEMICOLON] + temperature_text(v)
}

/// The view of what `parse_line` hands back.
pub open spec fn parsed_view(r: Option<(&[u8], i32)>) -> Option<(Seq<u8>, int)> {
    match r {
        Some((name, v)) => Some((name@, v as int)),
        None => None,
    }
}

fn digit_of(b: u8) -> (r: Option<i32>)
    ensures
        r is Some <==> is_digit(b),
        r matches Some(d) ==> d == digit_value(b),
{
    if ZERO <= b && b <= ZERO + 9 {
        Some((b - ZERO) as i32)
    } else {
        None
    }
}

/// Reads one record: the station name, borrowed from `line`, and the
/// temperature in tenths.  Returns `None` for a line that is no record.
pub fn parse_line(line: &[u8]) -> (r: Option<(&[u8], i32)>)
    ensures
        parsed_view(r) == parse_record(line@),
        r matches Some((_, v)) ==> is_temperature(v as int),
{
    let n = line.len();
    if n < 4 {
        return None;
    }
    if line[n - 2] != POINT {
        return None;
    }
    let tenths = match digit_of(line[n - 1]) {
        Some(d) => d,
        None => { return None; },
    };
    let units = match digit_of(line[n - 3]) {
        Some(d) => d,
        None => { return None; },
    };
    let magnitude = 10 * units + tenths;
    let before = line[n - 4];
    if before == SEMICOLON {
        assert(line@.skip(n - 3) =~= seq![line@[n - 3], line@[n - 2], line@[n - 1]]);
        return Some((vstd::slice::slice_subrange(line, 0, n - 4), magnitude));
    }
    if n < 5 {
        return None;
    }
    let further = line[n - 5];
    if before == MINUS {
        if further == SEMICOLON {
            return Some((vstd::slice::slice_subrange(line, 0, n - 5), -magnitude));
        }
        return None;
    }
    let tens = match digit_of(before) {
        Some(d) => d,
        None => { return None; },
    };
    if further == SEMICOLON {
        return Some((vstd::slice::slice_subrange(line, 0, n - 5), 100 * tens + magnitude));
    }
    if n < 6 {
        return None;
    }
    if further == MINUS && line[n - 6] == SEMICOLON {
        return Some((vstd::slice::slice_subrange(line, 0, n - 6), -(100 * tens + magnitude)));
    }
    None
}

/// Appends the text of a temperature of `value` tenths to `out`.
pub fn push_float(out: &mut Vec<u8>, value: i32)
    requires
        is_temperature(value as int),
    ensures
        final(out)@ == old(out)@ + temperature_text(value as int),
{
    let ghost before = out@;
    let mut magnitude: i32 = value;
    if value < 0 {
        out.push(MINUS);
        magnitude = -value;
    }
    if magnitude >= 100 {
        out.push((magnitude / 100) as u8 + ZERO);
    }
    out.push(((magnitude / 10) % 10) as u8 + ZERO);
    out.push(POINT);
    out.push((magnitude % 10) as u8 + ZERO);
    assert(out@ =~= before + temperature_text(value as int));
}

/// Writing a temperature and reading the text back gives the temperature.
pub proof fn lemma_text_has_value(v: int)
    requires
        is_temperature(v),
    ensures
        temperature_value(temperature_text(v)) == Some(v),
{
}

/// A record written from a name and a temperature parses to that name and
/// that temperature, whatever bytes the name holds.
pub proof fn lemma_parse_written_record(name: Seq<u8>, v: int)
    requires
        is_temperature(v),
    ensures
        parse_record(record_text(name, v)) == Some((name, v)),
{
    let text = temperature_text(v);
    let line = record_text(name, v);
    lemma_text_has_value(v);
    let cut = name.len() as int;
    assert(line.skip(cut + 1) =~= text);
    assert(line.take(cut) =~= name);
    assert(line[cut] == SEMICOLON);
    assert(line.len() == cut + 1 + text.len());
    if text.len() == 3 {
        assert(record_with_width(line, 3) == Some((name, v)));
        assert(record_with_width(line, 4) is None) by {
            if cut >= 1 && line[cut - 1] == SEMICOLON {
                assert(line.skip(cut)[0] == SEMICOLON);
            }
        }
        assert(record_with_width(line, 5) is None) by {
            if cut >= 2 && line[cut - 2] == SEMICOLON {
                assert(line.skip(cut - 1)[1] == SEMICOLON);
            }
        }
    } else if text.len() == 4 {
        assert(record_with_width(line, 4) == Some((name, v)));
        assert(record_with_width(line, 5) is None) by {
            if cut >= 1 && line[cut - 1] == SEMICOLON {
                assert(line.skip(cut)[0] == SEMICOLON);
            }
        }
    } else {
        assert(record_with_width(line, 5) == Some((name, v)));
    }
}

/// Whether a temperature text is the one that `temperature_text` writes for
/// its value: no tens digit that is zero, and no minus sign before zero.
pub open spec fn is_canonical(text: Seq<u8>) -> bool {
    match temperature_value(text) {
        Some(v) => {
            &&& text[0] == MINUS ==> v != 0
            &&& text.len() == 4 && text[0] != MINUS ==> text[0] != ZERO
            &&& text.len() == 5 ==> text[1] != ZERO
        },
        None => false,
    }
}

/// A canonical temperature text is written back byte for byte from its value.
pub proof fn lemma_value_has_text(text: Seq<u8>)
    requires
        is_canonical(text),
    ensures
        temperature_text(temperature_value(text).unwrap()) == text,
{
    let v = temperature_value(text).unwrap();
    let m = if v < 0 { -v } else { v };
    if text.len() == 3 {
        let (a, c) = (digit_value(text[0]), digit_value(text[2]));
        assert(m == 10 * a + c && m / 10 == a && m % 10 == c);
    } else if text.len() == 4 && text[0] != MINUS {
        let (a, b, c) = (digit_value(text[0]), digit_value(text[1]), digit_value(text[3]));
        assert(m == 100 * a + 10 * b + c && m / 100 == a && (m / 10) % 10 == b && m % 10 == c);
    } else if text.len() == 4 {
        let (a, c) = (digit_value(text[1]), digit_value(text[3]));
        assert(m == 10 * a + c && m / 10 == a && m % 10 == c);
    } else {
        let (a, b, c) = (digit_value(text[1]), digit_value(text[2]), digit_value(text[4]));
        assert(m == 100 * a + 10 * b + c && m / 100 == a && (m / 10) % 10 == b && m % 10 == c);
    }
    assert(temperature_text(v) =~= text);
}

/// The temperature text of a record: what follows the semicolon that
/// `parse_record` found.
pub open spec fn temperature_part(line: Seq<u8>) -> Seq<u8> {
    match parse_record(line) {
        Some((name, _)) => line.skip(name.len() as int + 1),
        None => Seq::empty(),
    }
}

/// Round trip: a record whose temperature text is canonical is rebuilt byte
/// for byte from the name and temperature that it parses to.
pub proof fn lemma_write_parsed_record(line: Seq<u8>)
    requires
        parse_record(line) is Some,
        is_canonical(temperature_part(line)),
    ensures
        record_text(parse_record(line).unwrap().0, parse_record(line).unwrap().1) == line,
{
    let (name, v) = parse_record(line).unwrap();
    let text = temperature_part(line);
    lemma_value_has_text(text);
    assert(record_text(name, v) =~= line);
}

/// A line is a record with name `name` and temperature `v` exactly when it is
/// `name`, a semicolon and a text of one of the four shapes that stands for `v`.
pub proof fn lemma_parse_record_shape(line: Seq<u8>, name: Seq<u8>, v: int)
    ensures
        parse_record(line) == Some((name, v)) <==> exists|text: Seq<u8>|
            #![trigger temperature_value(text)]
            line == name + seq![SEMICOLON] + text && temperature_value(text) == Some(v),
{
    if parse_record(line) == Some((name, v)) {
        let text = line.skip(name.len() as int + 1);
        assert(line =~= name + seq![SEMICOLON] + text);
        assert(temperature_value(text) == Some(v));
    }
    if exists|text: Seq<u8>|
        #![trigger temperature_value(text)]
        line == name + seq![SEMICOLON] + text && temperature_value(text) == Some(v) {
        let text = choose|text: Seq<u8>|
            #![trigger temperature_value(text)]
            line == name + seq![SEMICOLON] + text && temperature_value(text) == Some(v);
        let cut = name.len() as int;
        assert(line.skip(cut + 1) =~= text);
        assert(line.take(cut) =~= name);
        assert(line[cut] == SEMICOLON);
        if text.len() == 3 {
            assert(record_with_width(line, 4) is None) by {
                if cut >= 1 && line[cut - 1] == SEMICOLON {
                    assert(line.skip(cut)[0] == SEMICOLON);
                }
            }
            assert(record_with_width(line, 5) is None) by {
                if cut >= 2 && line[cut - 2] == SEMICOLON {
                    assert(line.skip(cut - 1)[1] == SEMICOLON);
                }
            }
        } else if text.len() == 4 {
            assert(record_with_width(line, 5) is None) by {
                if cut >= 1 && line[cut - 1] == SEMICOLON {
                    assert(line.skip(cut)[0] == SEMICOLON);
                }
            }
        }
    }
}

} // verus!
