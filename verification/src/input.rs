//! Input decoding: bytes become lines. A document holding a zero
//! byte is rejected as binary; anything else must be valid UTF-8 and
//! is split on newlines, each line losing one trailing carriage
//! return.

use vstd::prelude::*;
use vstd::utf8::{decode_utf8, valid_utf8};
use crate::num::dec_seq;
use crate::ranges::find_char;
use crate::text::{chars_to_string, push_str_chars, str_to_chars, sub_vec, views_of_strings};

verus! {

/// Whether the input holds a zero byte, the marker of binary content.
pub open spec fn has_zero(bytes: Seq<u8>) -> bool {
    exists|i: int| 0 <= i < bytes.len() && bytes[i] == 0u8
}

/// The uppercase hex digit of a value from 0 to 15.
pub open spec fn hex_digit(d: int) -> char {
    if d == 0 {
        '0'
    } else if d == 1 {
        '1'
    } else if d == 2 {
        '2'
    } else if d == 3 {
        '3'
    } else if d == 4 {
        '4'
    } else if d == 5 {
        '5'
    } else if d == 6 {
        '6'
    } else if d == 7 {
        '7'
    } else if d == 8 {
        '8'
    } else if d == 9 {
        '9'
    } else if d == 10 {
        'A'
    } else if d == 11 {
        'B'
    } else if d == 12 {
        'C'
    } else if d == 13 {
        'D'
    } else if d == 14 {
        'E'
    } else {
        'F'
    }
}

/// A byte as two uppercase hex digits.
pub open spec fn hex_byte(b: int) -> Seq<char> {
    seq![hex_digit(b / 16), hex_digit(b % 16)]
}

/// The message for binary input.
pub open spec fn msg_binary(label: Seq<char>) -> Seq<char> {
    "Input appears to be binary: "@ + label
}

/// The message for invalid UTF-8 at a known byte.
pub open spec fn msg_invalid_utf8_at(vu: int, b: int, label: Seq<char>) -> Seq<char> {
    "Invalid UTF-8 at byte position "@ + dec_seq(vu) + " (byte value: 0x"@ + hex_byte(b)
        + ") in "@ + label
}

/// The message for invalid UTF-8 without a located byte.
pub open spec fn msg_invalid_utf8(label: Seq<char>) -> Seq<char> {
    "Invalid UTF-8 in "@ + label
}

/// A line with one trailing carriage return removed.
pub open spec fn strip_cr(t: Seq<char>) -> Seq<char> {
    if t.len() > 0 && t.last() == '\r' {
        t.drop_last()
    } else {
        t
    }
}

/// The lines of a text: split on newlines, a trailing carriage
/// return removed from each piece, and no empty final line after a
/// final newline.
pub open spec fn split_lines(s: Seq<char>) -> Seq<Seq<char>>
    decreases s.len(),
{
    if s.len() == 0 {
        Seq::empty()
    } else {
        let d = find_char(s, '\n', 0);
        if d < 0 || d >= s.len() {
            seq![strip_cr(s)]
        } else {
            seq![strip_cr(s.subrange(0, d))] + split_lines(s.subrange(d + 1, s.len() as int))
        }
    }
}

/// Relies on `String::from_utf8`: it succeeds exactly on valid UTF-8,
/// decoding those bytes, and on failure reports how many leading
/// bytes form valid UTF-8 and the byte at that position.
#[verifier::external_body]
fn string_from_utf8(bytes: Vec<u8>) -> (r: Result<String, (usize, Option<u8>)>)
    ensures
        r is Ok <==> valid_utf8(bytes@),
        r matches Ok(s) ==> s@ == decode_utf8(bytes@),
        r matches Err(e) ==> e.0 <= bytes@.len() && valid_utf8(bytes@.subrange(0, e.0 as int)) && (
        e.1 is Some <==> e.0 < bytes@.len()) && (e.1 matches Some(b) ==> e.0 < bytes@.len() && b
            == bytes@[e.0 as int]),
{
    match String::from_utf8(bytes) {
        Ok(s) => Ok(s),
        Err(err) => {
            let vu = err.utf8_error().valid_up_to();
            let b = err.as_bytes().get(vu).copied();
            Err((vu, b))
        },
    }
}

/// Check whether the bytes hold a zero.
fn bytes_have_zero(bytes: &Vec<u8>) -> (r: bool)
    ensures
        r == has_zero(bytes@),
{
    let mut i: usize = 0;
    while i < bytes.len()
        invariant
            i <= bytes@.len(),
            forall|j: int| 0 <= j < i ==> bytes@[j] != 0u8,
        decreases bytes@.len() - i,
    {
        if bytes[i] == 0 {
            return true;
        }
        i = i + 1;
    }
    false
}

/// The two uppercase hex digits of a byte.
fn push_hex_byte(out: &mut Vec<char>, b: u8)
    ensures
        final(out)@ == old(out)@ + hex_byte(b as int),
{
    out.push(hex_digit_char((b / 16) as usize));
    out.push(hex_digit_char((b % 16) as usize));
    proof {
        assert(final(out)@ =~= old(out)@ + hex_byte(b as int));
    }
}

fn hex_digit_char(d: usize) -> (c: char)
    requires
        d < 16,
    ensures
        c == hex_digit(d as int),
{
    if d < 10 {
        crate::num::digit_char(d)
    } else if d == 10 {
        'A'
    } else if d == 11 {
        'B'
    } else if d == 12 {
        'C'
    } else if d == 13 {
        'D'
    } else if d == 14 {
        'E'
    } else {
        'F'
    }
}

/// Split decoded text into its lines.
fn split_text_lines(v: &Vec<char>) -> (r: Vec<String>)
    ensures
        views_of_strings(r@) == split_lines(v@),
{
    let mut out: Vec<String> = Vec::new();
    let mut pos: usize = 0;
    proof {
        assert(views_of_strings(out@) + split_lines(v@.subrange(0, v@.len() as int)) =~= split_lines(
            v@.subrange(0, v@.len() as int)));
        assert(v@.subrange(0, v@.len() as int) =~= v@);
    }
    loop
        invariant_except_break
            pos <= v@.len(),
            views_of_strings(out@) + split_lines(v@.subrange(pos as int, v@.len() as int))
                == split_lines(v@),
        ensures
            views_of_strings(out@) == split_lines(v@),
        decreases v@.len() - pos,
    {
        let ghost rest = v@.subrange(pos as int, v@.len() as int);
        if pos == v.len() {
            proof {
                assert(rest =~= Seq::<char>::empty());
                assert(views_of_strings(out@) + Seq::<Seq<char>>::empty() =~= views_of_strings(
                    out@,
                ));
            }
            break ;
        }
        let d = crate::ranges::find_from(v, '\n', pos);
        proof {
            crate::ranges::lemma_find_char(v@, '\n', pos as int);
        }
        let hi: usize = match d {
            Option::Some(k) => k,
            Option::None => v.len(),
        };
        proof {
            let dd = find_char(rest, '\n', 0);
            lemma_find_char_shift(v@, pos as int, '\n');
            match d {
                Option::Some(k) => {
                    assert(dd == k - pos);
                },
                Option::None => {
                    assert(dd == -1);
                },
            }
        }
        let e: usize = if hi > pos && v[hi - 1] == '\r' {
            hi - 1
        } else {
            hi
        };
        let seg = sub_vec(v, pos, e);
        proof {
            assert(rest.subrange(0, hi - pos) =~= v@.subrange(pos as int, hi as int));
            if hi > pos && v@[hi - 1] == '\r' {
                assert(strip_cr(v@.subrange(pos as int, hi as int)) =~= v@.subrange(
                    pos as int,
                    e as int,
                ));
            } else {
                assert(strip_cr(v@.subrange(pos as int, hi as int)) =~= v@.subrange(
                    pos as int,
                    e as int,
                ));
            }
        }
        let line = chars_to_string(&seg);
        let ghost out0 = out@;
        out.push(line);
        proof {
            assert forall|j: int|
                0 <= j < views_of_strings(out@).len() implies #[trigger] views_of_strings(
                out@,
            )[j] == (views_of_strings(out0) + seq![seg@])[j] by {
                if j < out0.len() {
                    assert(out@[j] == out0[j]);
                } else {
                    assert(out@[j] == line);
                }
            }
            assert(views_of_strings(out@) =~= views_of_strings(out0) + seq![seg@]);
        }
        match d {
            Option::Some(k) => {
                proof {
                    let rest2 = v@.subrange(k + 1, v@.len() as int);
                    assert(split_lines(rest) == seq![strip_cr(rest.subrange(0, k - pos))]
                        + split_lines(rest.subrange(k - pos + 1, rest.len() as int)));
                    assert(rest.subrange(k - pos + 1, rest.len() as int) =~= rest2);
                    assert(rest.subrange(0, k - pos) =~= v@.subrange(pos as int, k as int));
                    assert((views_of_strings(out0) + seq![seg@]) + split_lines(rest2)
                        =~= views_of_strings(out0) + (seq![seg@] + split_lines(rest2)));
                }
                pos = k + 1;
            },
            Option::None => {
                proof {
                    assert(split_lines(rest) == seq![strip_cr(rest)]);
                    assert(strip_cr(rest) == seg@) by {
                        assert(rest =~= v@.subrange(pos as int, v@.len() as int));
                    }
                    assert((views_of_strings(out0) + seq![seg@]) + Seq::<Seq<char>>::empty()
                        =~= views_of_strings(out0) + seq![seg@]);
                    assert(views_of_strings(out@) + split_lines(v@.subrange(
                        v@.len() as int,
                        v@.len() as int,
                    )) =~= views_of_strings(out@));
                }
                pos = v.len();
                proof {
                    assert(v@.subrange(v@.len() as int, v@.len() as int)
                        =~= Seq::<char>::empty());
                }
                break ;
            },
        }
    }
    out
}

/// The first occurrence of `c` in a suffix of `s`, seen from the
/// suffix's own start.
proof fn lemma_find_char_shift(s: Seq<char>, pos: int, c: char)
    requires
        0 <= pos <= s.len(),
    ensures
        ({
            let rest = s.subrange(pos, s.len() as int);
            let d = find_char(s, c, pos);
            let dd = find_char(rest, c, 0);
            (d == -1 ==> dd == -1) && (d >= 0 ==> dd == d - pos)
        }),
{
    let rest = s.subrange(pos, s.len() as int);
    lemma_find_char_shift_from(s, pos, c, pos);
}

proof fn lemma_find_char_shift_from(s: Seq<char>, pos: int, c: char, i: int)
    requires
        0 <= pos <= i <= s.len(),
    ensures
        ({
            let rest = s.subrange(pos, s.len() as int);
            let d = find_char(s, c, i);
            let dd = find_char(rest, c, i - pos);
            (d == -1 ==> dd == -1) && (d >= 0 ==> dd == d - pos)
        }),
    decreases s.len() - i,
{
    let rest = s.subrange(pos, s.len() as int);
    if i < s.len() {
        assert(rest[i - pos] == s[i]);
        if s[i] != c {
            lemma_find_char_shift_from(s, pos, c, i + 1);
        }
    }
}

/// Convert raw bytes to lines, checking for binary content and valid
/// UTF-8: a zero byte is rejected as binary; invalid UTF-8 is
/// rejected with the offending position and byte; valid text is
/// split into lines.
pub fn parse_bytes_to_lines(bytes: Vec<u8>, source_label: &str) -> (r: Result<Vec<String>, String>)
    ensures
        r is Err <==> (has_zero(bytes@) || !valid_utf8(bytes@)),
        has_zero(bytes@) ==> (r matches Err(m) && m@ == msg_binary(source_label@)),
        !has_zero(bytes@) && !valid_utf8(bytes@) ==> (r matches Err(m) && ((exists|vu: int|
            0 <= vu < bytes@.len() && valid_utf8(#[trigger] bytes@.subrange(0, vu)) && m@
                == msg_invalid_utf8_at(vu, bytes@[vu] as int, source_label@)) || m@
            == msg_invalid_utf8(source_label@))),
        r matches Ok(ls) ==> views_of_strings(ls@) == split_lines(decode_utf8(bytes@)),
{
    if bytes_have_zero(&bytes) {
        let mut out: Vec<char> = Vec::new();
        push_str_chars(&mut out, "Input appears to be binary: ");
        push_str_chars(&mut out, source_label);
        return Result::Err(chars_to_string(&out));
    }
    match string_from_utf8(bytes) {
        Result::Ok(s) => {
            let v = str_to_chars(s.as_str());
            Result::Ok(split_text_lines(&v))
        },
        Result::Err((vu, ob)) => {
            match ob {
                Option::Some(b) => {
                    let mut out: Vec<char> = Vec::new();
                    push_str_chars(&mut out, "Invalid UTF-8 at byte position ");
                    crate::num::push_decimal(&mut out, vu);
                    push_str_chars(&mut out, " (byte value: 0x");
                    push_hex_byte(&mut out, b);
                    push_str_chars(&mut out, ") in ");
                    push_str_chars(&mut out, source_label);
                    Result::Err(chars_to_string(&out))
                },
                Option::None => {
                    let mut out: Vec<char> = Vec::new();
                    push_str_chars(&mut out, "Invalid UTF-8 in ");
                    push_str_chars(&mut out, source_label);
                    Result::Err(chars_to_string(&out))
                },
            }
        },
    }
}

} // verus!
