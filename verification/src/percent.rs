//! Percent-encoding for data URLs: every non-ASCII byte, every control
//! byte, and the comma, percent and hash signs become a '%' escape with two
//! uppercase hexadecimal digits; every other byte passes through. The escape
//! table is the percent-encoding crate's; the selection loop is verified
//! against an exact character-level specification.

use vstd::prelude::*;

use vstd::string::StrSliceExecFns;
use vstd::utf8::encode_utf8;

verus! {

/// Whether the byte is escaped in a data URL: non-ASCII, a C0 control,
/// delete, comma, percent or hash.
pub open spec fn pct_must_escape(b: u8) -> bool {
    b >= 0x80 || b < 0x20 || b == 0x7f || b == 0x2c || b == 0x25 || b == 0x23
}

/// The uppercase hexadecimal digit of a value below sixteen.
pub open spec fn hex_digit_upper(d: int) -> char {
    if d == 0 {
        '0'
    } else if d == 1 {
        '1'
    } else if d == 2 {
        '2'
    } else if d == 3 {
        '3'
    } else if d == 4 {
        '4'
    } else if d == 5 {
        '5'
    } else if d == 6 {
        '6'
    } else if d == 7 {
        '7'
    } else if d == 8 {
        '8'
    } else if d == 9 {
        '9'
    } else if d == 10 {
        'A'
    } else if d == 11 {
        'B'
    } else if d == 12 {
        'C'
    } else if d == 13 {
        'D'
    } else if d == 14 {
        'E'
    } else {
        'F'
    }
}

/// What one byte becomes: its '%' escape, or itself as a character.
pub open spec fn pct_encode_byte(b: u8) -> Seq<char> {
    if pct_must_escape(b) {
        seq!['%', hex_digit_upper(b as int / 16), hex_digit_upper(b as int % 16)]
    } else {
        seq![b as char]
    }
}

/// The percent-encoding of a byte sequence.
pub open spec fn pct_encode_data(bs: Seq<u8>) -> Seq<char>
    decreases bs.len(),
{
    if bs.len() == 0 {
        Seq::empty()
    } else {
        pct_encode_byte(bs[0]) + pct_encode_data(bs.drop_first())
    }
}

/// One more byte in the prefix appends that byte's encoding.
proof fn lemma_pct_take_push(bs: Seq<u8>, i: int)
    requires
        0 <= i < bs.len(),
    ensures
        pct_encode_data(bs.take(i + 1)) == pct_encode_data(bs.take(i)) + pct_encode_byte(bs[i]),
    decreases i,
{
    if i == 0 {
        assert(bs.take(1)[0] == bs[0]);
        assert(bs.take(1).drop_first() =~= Seq::<u8>::empty());
        assert(pct_encode_data(bs.take(1).drop_first()) == Seq::<char>::empty());
        assert(bs.take(0) =~= Seq::<u8>::empty());
        assert(pct_encode_data(bs.take(1)) =~= pct_encode_data(bs.take(0)) + pct_encode_byte(
            bs[0],
        ));
    } else {
        lemma_pct_take_push(bs.drop_first(), i - 1);
        assert(bs.take(i + 1).drop_first() =~= bs.drop_first().take(i));
        assert(bs.take(i).drop_first() =~= bs.drop_first().take(i - 1));
        assert(bs.take(i + 1)[0] == bs[0]);
        assert(bs.take(i)[0] == bs[0]);
        assert(bs.drop_first()[i - 1] == bs[i]);
        assert(pct_encode_byte(bs[0]) + (pct_encode_data(bs.drop_first().take(i - 1))
            + pct_encode_byte(bs[i])) =~= (pct_encode_byte(bs[0]) + pct_encode_data(
            bs.drop_first().take(i - 1),
        )) + pct_encode_byte(bs[i]));
    }
}

/// Whether the byte is escaped, executable.
fn pct_must_escape_exec(b: u8) -> (r: bool)
    ensures
        r == pct_must_escape(b),
{
    b >= 0x80 || b < 0x20 || b == 0x7f || b == 0x2c || b == 0x25 || b == 0x23
}

/// Relies on percent-encoding's `percent_encode_byte`: the '%' escape of one
/// byte, a percent sign and two uppercase hexadecimal digits.
#[verifier::external_body]
fn pct_escape_byte(b: u8) -> (r: &'static str)
    ensures
        r@ == seq!['%', hex_digit_upper(b as int / 16), hex_digit_upper(b as int % 16)],
{
    percent_encoding::percent_encode_byte(b)
}

/// The percent-encoding of the text's UTF-8 bytes.
pub fn percent_encode_text(s: &str) -> (r: Vec<char>)
    ensures
        r@ == pct_encode_data(encode_utf8(s@)),
{
    let b = s.as_bytes();
    let n = b.len();
    let mut out: Vec<char> = Vec::new();
    proof {
        assert(b@.take(0) =~= Seq::<u8>::empty());
        assert(pct_encode_data(b@.take(0)) == Seq::<char>::empty());
        assert(out@ =~= pct_encode_data(b@.take(0)));
    }
    let mut i: usize = 0;
    while i < n
        invariant
            i <= n == b@.len(),
            b@ == encode_utf8(s@),
            out@ == pct_encode_data(b@.take(i as int)),
        decreases n - i,
    {
        let byte = b[i];
        proof {
            lemma_pct_take_push(b@, i as int);
        }
        if pct_must_escape_exec(byte) {
            let esc = pct_escape_byte(byte);
            let c0 = esc.get_char(0);
            let c1 = esc.get_char(1);
            let c2 = esc.get_char(2);
            out.push(c0);
            out.push(c1);
            out.push(c2);
            proof {
                assert(out@ =~= pct_encode_data(b@.take(i + 1)));
            }
        } else {
            out.push(byte as char);
            proof {
                assert(out@ =~= pct_encode_data(b@.take(i + 1)));
            }
        }
        i = i + 1;
    }
    proof {
        assert(b@.take(n as int) =~= b@);
    }
    out
}

} // verus!
