//! Decimal text form of 32-bit integers.
//!
//! Zone-index bounds store the decimal string of each inserted integer, and
//! inserts into an `Int32` column parse the incoming text, so both directions
//! are specified here: `dec_chars` gives the canonical decimal form of an
//! integer, and `parse_i32` gives the value (if any) of a piece of text under
//! the usual integer syntax (optional sign, one or more digits, value in
//! range).
use vstd::prelude::*;
use vstd::string::StrSliceExecFns;
use vstd::string::StringExecFns;

verus! {

pub open spec fn is_digit(c: char) -> bool {
    48 <= c as int <= 57
}

pub open spec fn digit_val(c: char) -> int {
    c as int - 48
}

pub open spec fn digit_char(d: int) -> char {
    if d == 0 {
        '0'
    } else if d == 1 {
        '1'
    } else if d == 2 {
        '2'
    } else if d == 3 {
        '3'
    } else if d == 4 {
        '4'
    } else if d == 5 {
        '5'
    } else if d == 6 {
        '6'
    } else if d == 7 {
        '7'
    } else if d == 8 {
        '8'
    } else {
        '9'
    }
}

/// Decimal digits of a non-negative number, most significant first.
pub open spec fn dec_digits(n: nat) -> Seq<char>
    decreases n,
{
    if n < 10 {
        seq![digit_char(n as int)]
    } else {
        dec_digits(n / 10) + seq![digit_char((n % 10) as int)]
    }
}

/// The decimal string form of an integer: a leading '-' for negative values,
/// then the digits of the magnitude with no leading zeros.
pub open spec fn dec_chars(v: int) -> Seq<char> {
    if v < 0 {
        seq!['-'] + dec_digits((-v) as nat)
    } else {
        dec_digits(v as nat)
    }
}

pub open spec fn all_digits(s: Seq<char>) -> bool {
    forall|i: int| 0 <= i < s.len() ==> is_digit(#[trigger] s[i])
}

/// The value of a digit string, most significant digit first.
pub open spec fn digits_val(s: Seq<char>) -> int
    decreases s.len(),
{
    if s.len() == 0 {
        0
    } else {
        digits_val(s.drop_last()) * 10 + digit_val(s.last())
    }
}

/// The value of a piece of text under integer syntax: an optional '+' or '-'
/// sign, then one or more decimal digits, and the value must fit in an `i32`.
pub open spec fn parse_i32(s: Seq<char>) -> Option<i32> {
    let neg = s.len() > 0 && s[0] == '-';
    let ds = if s.len() > 0 && (s[0] == '-' || s[0] == '+') {
        s.drop_first()
    } else {
        s
    };
    if ds.len() == 0 || !all_digits(ds) {
        None
    } else {
        let v = if neg {
            -digits_val(ds)
        } else {
            digits_val(ds)
        };
        if i32::MIN <= v <= i32::MAX {
            Some(v as i32)
        } else {
            None
        }
    }
}

/// One digit as text.
fn digit_str(d: u32) -> (r: &'static str)
    requires
        d < 10,
    ensures
        r@ == seq![digit_char(d as int)],
{
    proof {
        reveal_strlit("0");
        reveal_strlit("1");
        reveal_strlit("2");
        reveal_strlit("3");
        reveal_strlit("4");
        reveal_strlit("5");
        reveal_strlit("6");
        reveal_strlit("7");
        reveal_strlit("8");
        reveal_strlit("9");
        assert("0"@ =~= seq!['0']);
        assert("1"@ =~= seq!['1']);
        assert("2"@ =~= seq!['2']);
        assert("3"@ =~= seq!['3']);
        assert("4"@ =~= seq!['4']);
        assert("5"@ =~= seq!['5']);
        assert("6"@ =~= seq!['6']);
        assert("7"@ =~= seq!['7']);
        assert("8"@ =~= seq!['8']);
        assert("9"@ =~= seq!['9']);
    }
    if d == 0 {
        "0"
    } else if d == 1 {
        "1"
    } else if d == 2 {
        "2"
    } else if d == 3 {
        "3"
    } else if d == 4 {
        "4"
    } else if d == 5 {
        "5"
    } else if d == 6 {
        "6"
    } else if d == 7 {
        "7"
    } else if d == 8 {
        "8"
    } else {
        "9"
    }
}

/// Appends the decimal digits of `n` to `out`, most significant first.
fn push_digits(n: u32, out: &mut String)
    ensures
        final(out)@ == old(out)@ + dec_digits(n as nat),
    decreases n,
{
    if n < 10 {
        out.append(digit_str(n));
    } else {
        proof {
            assert(n / 10 < n) by (nonlinear_arith)
                requires
                    n >= 10,
            ;
        }
        push_digits(n / 10, out);
        out.append(digit_str(n % 10));
        proof {
            assert(old(out)@ + dec_digits((n / 10) as nat) + seq![digit_char((n % 10) as int)]
                =~= old(out)@ + (dec_digits((n / 10) as nat) + seq![
                digit_char((n % 10) as int),
            ]));
        }
    }
}

/// The decimal string of a 32-bit integer, as produced for zone-index bounds.
pub fn i32_to_decimal(v: i32) -> (r: String)
    ensures
        r@ == dec_chars(v as int),
{
    let mut out = String::new();
    if v < 0 {
        proof {
            reveal_strlit("-");
        }
        out.append("-");
        let m: u32 = (-(v as i64)) as u32;
        push_digits(m, &mut out);
        proof {
            assert(Seq::<char>::empty() + "-"@ + dec_digits(m as nat) =~= seq!['-'] + dec_digits(
                (-(v as int)) as nat,
            ));
        }
    } else {
        push_digits(v as u32, &mut out);
        proof {
            assert(Seq::<char>::empty() + dec_digits((v as u32) as nat) =~= dec_digits(
                (v as int) as nat,
            ));
        }
    }
    out
}

/// Parses text as an `i32`: optional sign, digits, range check. Returns
/// `None` exactly where `parse_i32` does.
pub fn decimal_to_i32(s: &str) -> (r: Option<i32>)
    ensures
        r == parse_i32(s@),
{
    let n: usize = s.unicode_len();
    if n == 0 {
        return None;
    }
    let first: char = s.get_char(0);
    let (neg, start): (bool, usize) = if first == '-' {
        (true, 1)
    } else if first == '+' {
        (false, 1)
    } else {
        (false, 0)
    };
    let ghost ds: Seq<char> = if start == 1 {
        s@.drop_first()
    } else {
        s@
    };
    if n == start {
        // a bare sign has no digits
        return None;
    }
    let mut acc: u64 = 0;
    let mut i: usize = start;
    while i < n
        invariant
            start <= i <= n,
            n == s@.len(),
            n >= 1,
            start == 0 || start == 1,
            neg == (s@[0] == '-'),
            (start == 1) == (s@[0] == '-' || s@[0] == '+'),
            ds == (if start == 1 {
                s@.drop_first()
            } else {
                s@
            }),
            all_digits(ds.take(i - start)),
            digits_val(ds.take(i - start)) <= 0x8000_0000 ==> acc == digits_val(
                ds.take(i - start),
            ),
            digits_val(ds.take(i - start)) > 0x8000_0000 ==> acc > 0x8000_0000,
            acc <= 0x5_0000_0009,
            digits_val(ds.take(i - start)) >= 0,
        decreases n - i,
    {
        let c: char = s.get_char(i);
        let cu: u32 = c as u32;
        if cu < 48 || cu > 57 {
            proof {
                assert(ds[i - start] == s@[i as int]);
                assert(!is_digit(ds[i - start]));
                assert(!all_digits(ds));
                assert(parse_i32(s@) is None);
            }
            return None;
        }
        let d: u32 = cu - 48;
        proof {
            let pre = ds.take(i - start);
            let post = ds.take(i + 1 - start);
            assert(post.drop_last() =~= pre);
            assert(post.last() == ds[i - start]);
            assert(ds[i - start] == s@[i as int]);
            assert(digits_val(post) == digits_val(pre) * 10 + digit_val(ds[i - start]));
            assert(digits_val(pre) >= 0 && digit_val(ds[i - start]) >= 0 ==> digits_val(post) >= 0)
                by (nonlinear_arith)
                requires
                    digits_val(post) == digits_val(pre) * 10 + digit_val(ds[i - start]),
            ;
            if digits_val(pre) > 0x8000_0000 {
                assert(digits_val(post) > 0x8000_0000) by (nonlinear_arith)
                    requires
                        digits_val(post) == digits_val(pre) * 10 + digit_val(ds[i - start]),
                        digits_val(pre) > 0x8000_0000,
                        digit_val(ds[i - start]) >= 0,
                ;
            }
        }
        if acc <= 0x8000_0000 {
            acc = acc * 10 + (d as u64);
        }
        i = i + 1;
    }
    proof {
        assert(ds.take(n - start) =~= ds);
    }
    if neg {
        if acc > 0x8000_0000 {
            return None;
        }
        let v: i32 = (-(acc as i64)) as i32;
        Some(v)
    } else {
        if acc > 0x7FFF_FFFF {
            return None;
        }
        Some(acc as i32)
    }
}

} // verus!
