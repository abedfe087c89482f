//! Media identifiers: a numeric id for RSC-backed media, a string id for
//! NRSC-backed media.  A numeric id renders as ten-digit zero-padded
//! decimal.

use vstd::prelude::*;

use crate::abi::{char_from_u32, string_from_chars};

verus! {

/// The decimal digit of `n` selected by the power-of-ten divisor `div`,
/// as a character.
pub open spec fn dec_digit_char(n: u32, div: int) -> char
    recommends
        div > 0,
{
    (((n as int / div) % 10 + 48) as u32) as char
}

/// The ten-digit zero-padded decimal rendering of a 32-bit number.
pub open spec fn ten_digit_chars(n: u32) -> Seq<char> {
    seq![
        dec_digit_char(n, 1000000000),
        dec_digit_char(n, 100000000),
        dec_digit_char(n, 10000000),
        dec_digit_char(n, 1000000),
        dec_digit_char(n, 100000),
        dec_digit_char(n, 10000),
        dec_digit_char(n, 1000),
        dec_digit_char(n, 100),
        dec_digit_char(n, 10),
        dec_digit_char(n, 1),
    ]
}

/// One decimal digit as its character.
fn digit_char(d: u32) -> (c: char)
    requires
        d < 10,
    ensures
        c == (((d + 48) as u32) as char),
        c as u32 == d + 48,
{
    match char_from_u32(d + 48) {
        Some(c) => {
            proof {
                vstd::utf8::char_u32_cast(c, (d + 48) as u32);
            }
            c
        },
        None => {
            proof {
                assert(false);
            }
            '0'
        },
    }
}

/// Renders `n` as exactly ten decimal digits, zero-padded on the left.
pub fn ten_digit_decimal(n: u32) -> (r: String)
    ensures
        r@ == ten_digit_chars(n),
        r@.len() == 10,
{
    let mut out: Vec<char> = Vec::new();
    out.push(digit_char(n / 1000000000 % 10));
    out.push(digit_char(n / 100000000 % 10));
    out.push(digit_char(n / 10000000 % 10));
    out.push(digit_char(n / 1000000 % 10));
    out.push(digit_char(n / 100000 % 10));
    out.push(digit_char(n / 10000 % 10));
    out.push(digit_char(n / 1000 % 10));
    out.push(digit_char(n / 100 % 10));
    out.push(digit_char(n / 10 % 10));
    out.push(digit_char(n % 10));
    proof {
        assert(out@ =~= ten_digit_chars(n));
    }
    string_from_chars(&out)
}

/// Either a numeric or a string media identifier.
#[derive(Debug)]
pub enum MediaId {
    Str(String),
    Num(u32),
}

impl MediaId {
    /// The identifier's text: a string id as itself, a numeric id as
    /// ten-digit zero-padded decimal.
    pub fn text(&self) -> (r: String)
        ensures
            self matches MediaId::Str(s) ==> r@ == s@,
            self matches MediaId::Num(n) ==> r@ == ten_digit_chars(*n),
    {
        match self {
            MediaId::Str(s) => s.clone(),
            MediaId::Num(n) => ten_digit_decimal(*n),
        }
    }
}

} // verus!
