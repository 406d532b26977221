//! Record codec: hex-digit lines to digit sequences and back.
//!
//! Parsing maps each character to its hex value (0-15). Rendering writes each
//! digit as its decimal numeral, so a digit of 10 or more produces two
//! characters; parse and render therefore round-trip exactly on records whose
//! digits are all below 10.

use vstd::prelude::*;
use crate::Error;
use crate::Number;

verus! {

/// The hex value of a character: `0`-`9`, `a`-`f`, `A`-`F`; `None` otherwise.
pub open spec fn hex_val(c: char) -> Option<u8> {
    let u = c as int;
    if 48 <= u <= 57 {
        Some((u - 48) as u8)
    } else if 97 <= u <= 102 {
        Some((u - 87) as u8)
    } else if 65 <= u <= 70 {
        Some((u - 55) as u8)
    } else {
        None
    }
}

/// Every character of `s` is a hex digit.
pub open spec fn all_hex(s: Seq<char>) -> bool {
    forall|i: int| 0 <= i < s.len() ==> hex_val(s[i]) is Some
}

/// The digit sequence a fully hex line denotes.
pub open spec fn digits_of(s: Seq<char>) -> Seq<u8> {
    Seq::new(s.len(), |i: int| hex_val(s[i]).unwrap())
}

/// What parsing a line yields: its digits if every character is a hex digit.
pub open spec fn parse_spec(s: Seq<char>) -> Option<Seq<u8>> {
    if all_hex(s) {
        Some(digits_of(s))
    } else {
        None
    }
}

/// Every digit of a record is a hex value.
pub open spec fn valid_digits(s: Seq<u8>) -> bool {
    forall|i: int| 0 <= i < s.len() ==> s[i] < 16
}

/// The decimal numeral of one digit (two characters from 10 up).
pub open spec fn digit_chars(d: u8) -> Seq<char> {
    if d == 0 { seq!['0'] }
    else if d == 1 { seq!['1'] }
    else if d == 2 { seq!['2'] }
    else if d == 3 { seq!['3'] }
    else if d == 4 { seq!['4'] }
    else if d == 5 { seq!['5'] }
    else if d == 6 { seq!['6'] }
    else if d == 7 { seq!['7'] }
    else if d == 8 { seq!['8'] }
    else if d == 9 { seq!['9'] }
    else if d == 10 { seq!['1', '0'] }
    else if d == 11 { seq!['1', '1'] }
    else if d == 12 { seq!['1', '2'] }
    else if d == 13 { seq!['1', '3'] }
    else if d == 14 { seq!['1', '4'] }
    else if d == 15 { seq!['1', '5'] }
    else { Seq::empty() }
}

/// The rendering of the first `i` digits of `s`, concatenated.
pub open spec fn render_upto(s: Seq<u8>, i: int) -> Seq<char>
    decreases i,
{
    if i <= 0 {
        Seq::empty()
    } else {
        render_upto(s, i - 1) + digit_chars(s[i - 1])
    }
}

/// The rendering of a whole record.
pub open spec fn render_spec(s: Seq<u8>) -> Seq<char> {
    render_upto(s, s.len() as int)
}

/// Parses one line into a record. Returns `Ok` exactly when every character
/// is a hex digit; otherwise reports the offending line.
pub fn str_to_number(string: &str) -> (r: Result<Number, Error>)
    ensures
        r is Ok <==> all_hex(string@),
        r matches Ok(v) ==> v@ == digits_of(string@) && valid_digits(v@),
        r matches Err(e) ==> e matches Error::ParseError { line } && line@ == string@,
{
    let n = string.unicode_len();
    let mut out: Number = Vec::new();
    let mut i: usize = 0;
    while i < n
        invariant
            n == string@.len(),
            0 <= i <= n,
            out@.len() == i,
            forall|j: int| 0 <= j < i ==> hex_val(string@[j]) is Some,
            forall|j: int| 0 <= j < i ==> out@[j] == hex_val(string@[j]).unwrap(),
        decreases n - i,
    {
        let c = string.get_char(i);
        let u = c as u32;
        let d: u8 = if 48 <= u && u <= 57 {
            (u - 48) as u8
        } else if 97 <= u && u <= 102 {
            (u - 87) as u8
        } else if 65 <= u && u <= 70 {
            (u - 55) as u8
        } else {
            return Err(Error::ParseError { line: string.to_owned() });
        };
        out.push(d);
        i = i + 1;
    }
    proof {
        assert(out@ =~= digits_of(string@));
    }
    Ok(out)
}

/// Renders a record as the concatenation of its digits' decimal numerals.
pub fn number_to_str(number: &Number) -> (r: String)
    requires
        valid_digits(number@),
    ensures
        r@ == render_spec(number@),
{
    let n = number.len();
    let mut r = String::new();
    let mut i: usize = 0;
    while i < n
        invariant
            n == number@.len(),
            0 <= i <= n,
            valid_digits(number@),
            r@ == render_upto(number@, i as int),
        decreases n - i,
    {
        proof {
            reveal_strlit("0");
            reveal_strlit("1");
            reveal_strlit("2");
            reveal_strlit("3");
            reveal_strlit("4");
            reveal_strlit("5");
            reveal_strlit("6");
            reveal_strlit("7");
            reveal_strlit("8");
            reveal_strlit("9");
            reveal_strlit("10");
            reveal_strlit("11");
            reveal_strlit("12");
            reveal_strlit("13");
            reveal_strlit("14");
            reveal_strlit("15");
        }
        let d = number[i];
        match d {
            0 => r.append("0"),
            1 => r.append("1"),
            2 => r.append("2"),
            3 => r.append("3"),
            4 => r.append("4"),
            5 => r.append("5"),
            6 => r.append("6"),
            7 => r.append("7"),
            8 => r.append("8"),
            9 => r.append("9"),
            10 => r.append("10"),
            11 => r.append("11"),
            12 => r.append("12"),
            13 => r.append("13"),
            14 => r.append("14"),
            15 => r.append("15"),
            _ => {
                proof {
                    assert(false);
                }
            },
        }
        i = i + 1;
    }
    r
}

/// Parses a batch of lines. Returns `Ok` exactly when every line is fully
/// hex and all lines share one length; the offending line is reported
/// otherwise.
pub fn parse_records(lines: &Vec<String>) -> (r: Result<Vec<Number>, Error>)
    ensures
        r is Ok <==> (forall|i: int|
            0 <= i < lines@.len() ==> all_hex(lines.deep_view()[i]) && lines.deep_view()[i].len()
                == lines.deep_view()[0].len()),
        r matches Ok(v) ==> {
            &&& v@.len() == lines@.len()
            &&& forall|i: int| 0 <= i < v@.len() ==> v.deep_view()[i] == digits_of(
                lines.deep_view()[i],
            )
        },
        r matches Err(e) ==> e matches Error::ParseError { line } && exists|i: int|
            0 <= i < lines@.len() && lines.deep_view()[i] == line@ && (!all_hex(
                lines.deep_view()[i],
            ) || lines.deep_view()[i].len() != lines.deep_view()[0].len()),
{
    let n = lines.len();
    let mut out: Vec<Number> = Vec::new();
    let mut i: usize = 0;
    while i < n
        invariant
            n == lines@.len(),
            0 <= i <= n,
            out@.len() == i,
            forall|j: int| 0 <= j < i ==> all_hex(lines.deep_view()[j]),
            forall|j: int| 0 <= j < i ==> out.deep_view()[j] == digits_of(lines.deep_view()[j]),
            forall|j: int|
                0 <= j < i ==> (#[trigger] lines.deep_view()[j]).len()
                    == lines.deep_view()[0].len(),
        decreases n - i,
    {
        proof {
            assert(lines.deep_view()[i as int] == lines@[i as int]@);
        }
        let parsed = match str_to_number(lines[i].as_str()) {
            Ok(v) => v,
            Err(e) => {
                return Err(e);
            },
        };
        proof {
            assert(parsed.deep_view() =~= parsed@);
            assert(digits_of(lines.deep_view()[i as int]).len()
                == lines.deep_view()[i as int].len());
        }
        if i > 0 {
            let l0: usize = out[0].len();
            proof {
                assert(out.deep_view()[0] == out@[0].deep_view());
                assert(out@[0].deep_view() =~= out@[0]@);
                assert(digits_of(lines.deep_view()[0]).len() == lines.deep_view()[0].len());
            }
            if parsed.len() != l0 {
                return Err(Error::ParseError { line: lines[i].clone() });
            }
        }
        let ghost prev = out.deep_view();
        out.push(parsed);
        proof {
            assert forall|j: int| 0 <= j <= i implies out.deep_view()[j] == digits_of(
                lines.deep_view()[j],
            ) by {
                assert(out.deep_view()[j] == out@[j].deep_view());
                if j < i {
                    assert(out@[j].deep_view() == prev[j]);
                    assert(prev[j] == digits_of(lines.deep_view()[j]));
                } else {
                    assert(out.deep_view()[i as int] == parsed.deep_view());
                }
            }
        }
        i = i + 1;
    }
    Ok(out)
}

/// Round-trip law: rendering and re-parsing is the identity on records whose
/// digits are all below 10 (larger digits render as two numerals and re-parse
/// as two digits).
pub proof fn lemma_parse_render_roundtrip(r: Seq<u8>)
    requires
        forall|i: int| 0 <= i < r.len() ==> r[i] < 10,
    ensures
        parse_spec(render_spec(r)) == Some(r),
{
    lemma_render_low_chars(r, r.len() as int);
    let s = render_spec(r);
    assert(s.len() == r.len());
    assert forall|j: int| 0 <= j < s.len() implies hex_val(s[j]) == Some(r[j]) by {
        assert(s[j] == digit_chars(r[j])[0]);
    }
    assert(all_hex(s));
    assert(digits_of(s) =~= r);
}

/// For digits below 10 the rendering of a prefix is one character per digit.
proof fn lemma_render_low_chars(r: Seq<u8>, i: int)
    requires
        0 <= i <= r.len(),
        forall|j: int| 0 <= j < r.len() ==> r[j] < 10,
    ensures
        render_upto(r, i).len() == i,
        forall|j: int| 0 <= j < i ==> render_upto(r, i)[j] == digit_chars(r[j])[0],
    decreases i,
{
    if i > 0 {
        lemma_render_low_chars(r, i - 1);
    }
}

} // verus!
