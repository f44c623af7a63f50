//! Shared string helpers: conversions between text and character vectors,
//! decimal formatting and integer parsing, all with exact contracts.

use vstd::prelude::*;

verus! {

broadcast use vstd::string::group_string_axioms;

/// The characters of the text, as a vector.
pub fn str_to_chars(s: &str) -> (r: Vec<char>)
    ensures
        r@ == s@,
{
    let mut r: Vec<char> = Vec::new();
    for c in it: s.chars()
        invariant
            it.seq() == s@,
            r@ == it.seq().take(it.index() as int),
    {
        r.push(c);
    }
    proof {
        assert(r@ =~= s@);
    }
    r
}

/// Relies on `String`'s `FromIterator<char>`: the collected string holds
/// exactly the characters of the vector, in order.
#[verifier::external_body]
pub fn chars_to_string(v: &Vec<char>) -> (r: String)
    ensures
        r@ == v@,
{
    v.iter().collect()
}

/// The decimal digit character for a value below ten.
pub open spec fn dec_digit(d: int) -> char {
    if d == 0 {
        '0'
    } else if d == 1 {
        '1'
    } else if d == 2 {
        '2'
    } else if d == 3 {
        '3'
    } else if d == 4 {
        '4'
    } else if d == 5 {
        '5'
    } else if d == 6 {
        '6'
    } else if d == 7 {
        '7'
    } else if d == 8 {
        '8'
    } else {
        '9'
    }
}

/// The usual decimal rendering of a natural number, without leading zeros.
pub open spec fn spec_decimal(n: nat) -> Seq<char>
    decreases n,
{
    if n < 10 {
        seq![dec_digit(n as int)]
    } else {
        spec_decimal(n / 10) + seq![dec_digit((n % 10) as int)]
    }
}

/// The decimal rendering of a value below one hundred, padded to two digits.
pub open spec fn spec_decimal2(n: nat) -> Seq<char> {
    if n < 10 {
        seq!['0'] + spec_decimal(n)
    } else {
        spec_decimal(n)
    }
}

/// Decimal digits of the number, most significant first.
pub fn u64_digits(n: u64) -> (r: Vec<char>)
    ensures
        r@ == spec_decimal(n as nat),
{
    if n == 0 {
        let mut r: Vec<char> = Vec::new();
        r.push('0');
        proof {
            assert(r@ =~= spec_decimal(0));
        }
        return r;
    }
    let mut r: Vec<char> = Vec::new();
    let mut m: u64 = n;
    proof {
        assert(spec_decimal(n as nat) =~= spec_decimal(n as nat) + r@);
    }
    while m > 0
        invariant
            m > 0 ==> spec_decimal(n as nat) == spec_decimal(m as nat) + r@,
            m == 0 ==> spec_decimal(n as nat) == r@,
        decreases m,
    {
        let d: u64 = m % 10;
        let ghost old_r = r@;
        let ghost old_m = m;
        r.insert(0, digit_char(d));
        proof {
            assert(r@ =~= seq![dec_digit(d as int)] + old_r);
            if old_m >= 10 {
                assert(spec_decimal(old_m as nat) == spec_decimal((old_m / 10) as nat) + seq![
                    dec_digit((old_m % 10) as int),
                ]);
                assert(spec_decimal((old_m / 10) as nat) + r@ =~= spec_decimal(old_m as nat)
                    + old_r);
            } else {
                assert(spec_decimal(old_m as nat) == seq![dec_digit(old_m as int)]);
                assert(r@ =~= spec_decimal(old_m as nat) + old_r);
            }
        }
        m = m / 10;
    }
    r
}

/// The digit character of a value below ten.
pub fn digit_char(d: u64) -> (c: char)
    requires
        d < 10,
    ensures
        c == dec_digit(d as int),
{
    match d {
        0 => '0',
        1 => '1',
        2 => '2',
        3 => '3',
        4 => '4',
        5 => '5',
        6 => '6',
        7 => '7',
        8 => '8',
        _ => '9',
    }
}

/// The decimal rendering of the number as a string.
pub fn u64_to_string(n: u64) -> (r: String)
    ensures
        r@ == spec_decimal(n as nat),
{
    let digits = u64_digits(n);
    chars_to_string(&digits)
}

/// Whether two character vectors hold the same characters.
pub fn chars_eq(x: &Vec<char>, y: &Vec<char>) -> (r: bool)
    ensures
        r == (x@ == y@),
{
    if x.len() != y.len() {
        return false;
    }
    let n = x.len();
    let mut i: usize = 0;
    while i < n
        invariant
            i <= n == x@.len() == y@.len(),
            forall|k: int| 0 <= k < i ==> x@[k] == y@[k],
        decreases n - i,
    {
        if x[i] != y[i] {
            return false;
        }
        i = i + 1;
    }
    proof {
        assert(x@ =~= y@);
    }
    true
}

/// Whether two texts hold the same characters.
pub fn str_eq(a: &str, b: &str) -> (r: bool)
    ensures
        r == (a@ == b@),
{
    let va = str_to_chars(a);
    let vb = str_to_chars(b);
    chars_eq(&va, &vb)
}

/// Whether the character is a decimal digit.
pub open spec fn is_digit(c: char) -> bool {
    48 <= c as u32 <= 57
}

/// The value of a decimal digit character.
pub open spec fn digit_val(c: char) -> int {
    c as u32 - 48
}

/// Whether every character of the sequence is a decimal digit.
pub open spec fn all_digits(s: Seq<char>) -> bool {
    forall|i: int| 0 <= i < s.len() ==> is_digit(s[i])
}

/// The number denoted by a sequence of decimal digits, most significant first.
pub open spec fn digits_val(s: Seq<char>) -> int
    decreases s.len(),
{
    if s.len() == 0 {
        0
    } else {
        digits_val(s.drop_last()) * 10 + digit_val(s.last())
    }
}

/// Whether the text is an integer literal as `str::parse` for a signed
/// integer accepts it: an optional sign followed by one or more digits.
pub open spec fn is_int_literal(s: Seq<char>) -> bool {
    if s.len() == 0 {
        false
    } else if s[0] == '-' || s[0] == '+' {
        s.len() >= 2 && all_digits(s.skip(1))
    } else {
        all_digits(s)
    }
}

/// The value of an integer literal.
pub open spec fn int_literal_val(s: Seq<char>) -> int {
    if s.len() > 0 && s[0] == '-' {
        -digits_val(s.skip(1))
    } else if s.len() > 0 && s[0] == '+' {
        digits_val(s.skip(1))
    } else {
        digits_val(s)
    }
}

proof fn lemma_digits_val_nonneg(s: Seq<char>)
    requires
        all_digits(s),
    ensures
        digits_val(s) >= 0,
    decreases s.len(),
{
    if s.len() > 0 {
        assert(all_digits(s.drop_last()));
        lemma_digits_val_nonneg(s.drop_last());
    }
}

/// A digit string's value never shrinks as more digits are appended.
proof fn lemma_digits_val_prefix_le(s: Seq<char>, i: int, j: int)
    requires
        all_digits(s),
        0 <= i <= j <= s.len(),
    ensures
        digits_val(s.subrange(0, i)) <= digits_val(s.subrange(0, j)),
    decreases j - i,
{
    if i < j {
        lemma_digits_val_prefix_le(s, i, j - 1);
        let p = s.subrange(0, j);
        assert(p.drop_last() =~= s.subrange(0, j - 1));
        assert(all_digits(s.subrange(0, j - 1)));
        lemma_digits_val_nonneg(s.subrange(0, j - 1));
    }
}

/// A decimal rendering consists of digits and denotes its number.
proof fn lemma_spec_decimal_val(n: nat)
    ensures
        all_digits(spec_decimal(n)),
        digits_val(spec_decimal(n)) == n,
        spec_decimal(n).len() > 0,
    decreases n,
{
    assert forall|d: int| 0 <= d < 10 implies digit_val(#[trigger] dec_digit(d)) == d && is_digit(
        dec_digit(d),
    ) by {
        assert('0' as u32 == 48 && '1' as u32 == 49 && '2' as u32 == 50 && '3' as u32 == 51 && '4'
            as u32 == 52 && '5' as u32 == 53 && '6' as u32 == 54 && '7' as u32 == 55 && '8' as u32
            == 56 && '9' as u32 == 57);
    }
    if n < 10 {
        let s = spec_decimal(n);
        assert(s.drop_last() =~= Seq::<char>::empty());
        assert(digits_val(Seq::<char>::empty()) == 0);
        assert(s.last() == dec_digit(n as int));
    } else {
        lemma_spec_decimal_val(n / 10);
        let s = spec_decimal(n);
        assert(s.drop_last() =~= spec_decimal(n / 10));
        assert(s.last() == dec_digit((n % 10) as int));
        assert forall|i: int| 0 <= i < s.len() implies is_digit(#[trigger] s[i]) by {
            if i < s.len() - 1 {
                assert(s[i] == spec_decimal(n / 10)[i]);
            }
        }
    }
}

/// Law: parsing a rendered number returns the number, for every value that
/// fits the signed range.
pub fn decimal_round_trip(n: u64) -> (r: i64)
    requires
        n <= 0x7fff_ffff_ffff_ffff,
    ensures
        r == n,
{
    let s = u64_to_string(n);
    proof {
        lemma_spec_decimal_val(n as nat);
    }
    match parse_i64(s.as_str()) {
        Ok(v) => v,
        Err(_) => {
            proof {
                assert(false);
            }
            0
        },
    }
}

/// Parses the text as a signed 64-bit integer, accepting exactly what
/// `str::parse::<i64>` accepts: an optional sign and one or more digits,
/// with the value in range.
pub fn parse_i64(s: &str) -> (r: Result<i64, crate::error::ToolError>)
    ensures
        r is Ok <==> is_int_literal(s@) && -0x8000_0000_0000_0000 <= int_literal_val(s@)
            <= 0x7fff_ffff_ffff_ffff,
        match r {
            Ok(v) => v == int_literal_val(s@),
            Err(e) => e == crate::error::ToolError::InvalidNumber,
        },
{
    let chars = str_to_chars(s);
    let n = chars.len();
    if n == 0 {
        return Err(crate::error::ToolError::InvalidNumber);
    }
    let c0 = chars[0];
    let neg: bool = c0 == '-';
    let start: usize = if c0 == '-' || c0 == '+' {
        1
    } else {
        0
    };
    if start >= n {
        return Err(crate::error::ToolError::InvalidNumber);
    }
    let limit: u64 = if neg {
        0x8000_0000_0000_0000
    } else {
        0x7fff_ffff_ffff_ffff
    };
    let mut acc: u64 = 0;
    let mut i: usize = start;
    proof {
        assert(chars@.subrange(start as int, start as int) =~= Seq::<char>::empty());
    }
    while i < n
        invariant
            start <= i <= n == chars@.len(),
            chars@ == s@,
            start == 0 || start == 1,
            start == 1 ==> (s@[0] == '-' || s@[0] == '+'),
            start == 0 ==> !(s@[0] == '-' || s@[0] == '+'),
            neg <==> (s@[0] == '-'),
            limit == if neg {
                0x8000_0000_0000_0000u64
            } else {
                0x7fff_ffff_ffff_ffffu64
            },
            all_digits(chars@.subrange(start as int, i as int)),
            acc == digits_val(chars@.subrange(start as int, i as int)),
            acc <= limit,
        decreases n - i,
    {
        let c = chars[i];
        let u = c as u32;
        if u < 48 || u > 57 {
            proof {
                if is_int_literal(s@) {
                    assert(is_digit(s@.skip(start as int)[i - start]));
                }
            }
            return Err(crate::error::ToolError::InvalidNumber);
        }
        let d: u64 = (u - 48) as u64;
        let ghost pre = chars@.subrange(start as int, i as int);
        proof {
            assert(is_digit(c));
            assert(digit_val(c) == d as int);
            assert(chars@.subrange(start as int, i + 1 as int).drop_last() =~= pre);
            assert(chars@.subrange(start as int, i + 1 as int).last() == chars@[i as int]);
        }
        if acc > (limit - d) / 10 {
            // The digits read so far already exceed the representable range;
            // any continuation is out of range as well.
            proof {
                let digits = s@.skip(start as int);
                if is_int_literal(s@) {
                    assert(all_digits(digits));
                    assert(digits.subrange(0, (i + 1 - start) as int) =~= chars@.subrange(
                        start as int,
                        i + 1 as int,
                    ));
                    assert(digits.subrange(0, digits.len() as int) =~= digits);
                    lemma_digits_val_prefix_le(digits, (i + 1 - start) as int, digits.len() as int);
                    assert(digits_val(digits) > limit);
                    if start == 0 {
                        assert(s@.skip(0) =~= s@);
                    }
                }
            }
            return Err(crate::error::ToolError::InvalidNumber);
        }
        acc = acc * 10 + d;
        i = i + 1;
    }
    proof {
        let digits = s@.skip(start as int);
        assert(chars@.subrange(start as int, n as int) =~= digits);
        if start == 0 {
            assert(s@.skip(0) =~= s@);
        }
    }
    if neg {
        if acc == 0x8000_0000_0000_0000 {
            Ok(i64::MIN)
        } else {
            Ok(-(acc as i64))
        }
    } else {
        Ok(acc as i64)
    }
}

} // verus!
