//! Verified parsing of unsigned 64-bit values from their decimal and
//! hexadecimal text encodings, as used for externally supplied seeds and
//! size bounds.

use vstd::prelude::*;
use vstd::string::StrSliceExecFns;

verus! {

/// Whether a character is a decimal digit.
pub open spec fn is_dec_digit(c: char) -> bool {
    48 <= c as int <= 57
}

/// The value of a decimal digit.
pub open spec fn dec_digit_value(c: char) -> int {
    c as int - 48
}

/// Whether a character is a hexadecimal digit (either letter case).
pub open spec fn is_hex_digit(c: char) -> bool {
    48 <= c as int <= 57 || 97 <= c as int <= 102 || 65 <= c as int <= 70
}

/// The value of a hexadecimal digit (either letter case).
pub open spec fn hex_digit_value(c: char) -> int {
    if 48 <= c as int <= 57 {
        c as int - 48
    } else if 97 <= c as int <= 102 {
        c as int - 87
    } else {
        c as int - 55
    }
}

/// The number denoted by a digit sequence in the given base, most
/// significant digit first, with each digit read by `val`.
pub open spec fn radix_value(s: Seq<char>, base: int, val: spec_fn(char) -> int) -> int
    decreases s.len(),
{
    if s.len() == 0 {
        0
    } else {
        radix_value(s.drop_last(), base, val) * base + val(s.last())
    }
}

/// Whether a text is a well-formed encoding of a 64-bit value: non-empty,
/// digits throughout, and a denoted value that fits.
pub open spec fn valid_u64_text(
    s: Seq<char>,
    base: int,
    digit: spec_fn(char) -> bool,
    val: spec_fn(char) -> int,
) -> bool {
    &&& s.len() > 0
    &&& (forall|i: int| 0 <= i < s.len() ==> digit(#[trigger] s[i]))
    &&& radix_value(s, base, val) <= u64::MAX
}

/// A digit sequence denotes a value no smaller than zero.
proof fn lemma_radix_value_nonneg(s: Seq<char>, base: int, val: spec_fn(char) -> int)
    requires
        base >= 1,
        forall|i: int| 0 <= i < s.len() ==> val(#[trigger] s[i]) >= 0,
    ensures
        radix_value(s, base, val) >= 0,
    decreases s.len(),
{
    if s.len() > 0 {
        lemma_radix_value_nonneg(s.drop_last(), base, val);
        assert(radix_value(s.drop_last(), base, val) * base >= 0) by (nonlinear_arith)
            requires
                radix_value(s.drop_last(), base, val) >= 0,
                base >= 1,
        ;
        assert(val(s.last()) >= 0);
    }
}

/// Extending a digit sequence by one digit multiplies its value by the
/// base and adds the digit; so a prefix never denotes more than the whole.
proof fn lemma_radix_value_prefix(s: Seq<char>, base: int, val: spec_fn(char) -> int, j: int)
    requires
        base >= 1,
        0 <= j <= s.len(),
        forall|i: int| 0 <= i < s.len() ==> val(#[trigger] s[i]) >= 0,
    ensures
        radix_value(s.take(j), base, val) <= radix_value(s, base, val),
    decreases s.len() - j,
{
    if j == s.len() {
        assert(s.take(j) == s);
    } else {
        lemma_radix_value_prefix(s, base, val, j + 1);
        assert(s.take(j + 1).drop_last() == s.take(j));
        assert(s.take(j + 1).last() == s[j]);
        let pv = radix_value(s.take(j), base, val);
        lemma_radix_value_nonneg(s.take(j), base, val);
        assert(pv * base >= pv) by (nonlinear_arith)
            requires
                pv >= 0,
                base >= 1,
        ;
        assert(radix_value(s.take(j + 1), base, val) == pv * base + val(s[j]));
    }
}

/// Parses a non-empty run of digits as a 64-bit value in the given base.
/// Returns the denoted value exactly when the text is a well-formed
/// encoding, and nothing otherwise.
fn parse_u64_radix(s: &str, hex: bool) -> (r: Option<u64>)
    ensures
        ({
            let base: int = if hex {
                16
            } else {
                10
            };
            let digit = if hex {
                |c: char| is_hex_digit(c)
            } else {
                |c: char| is_dec_digit(c)
            };
            let val = if hex {
                |c: char| hex_digit_value(c)
            } else {
                |c: char| dec_digit_value(c)
            };
            &&& (r is Some <==> valid_u64_text(s@, base, digit, val))
            &&& (r matches Some(v) ==> v as int == radix_value(s@, base, val))
        }),
{
    let ghost base: int = if hex {
        16
    } else {
        10
    };
    let ghost digit = if hex {
        |c: char| is_hex_digit(c)
    } else {
        |c: char| is_dec_digit(c)
    };
    let ghost val = if hex {
        |c: char| hex_digit_value(c)
    } else {
        |c: char| dec_digit_value(c)
    };
    let n = s.unicode_len();
    if n == 0 {
        return None;
    }
    let b: u64 = if hex {
        16
    } else {
        10
    };
    let mut acc: u64 = 0;
    let mut i: usize = 0;
    while i < n
        invariant
            i <= n,
            n == s@.len(),
            base == if hex {
                16int
            } else {
                10int
            },
            digit == (if hex {
                |c: char| is_hex_digit(c)
            } else {
                |c: char| is_dec_digit(c)
            }),
            val == (if hex {
                |c: char| hex_digit_value(c)
            } else {
                |c: char| dec_digit_value(c)
            }),
            b as int == base,
            forall|k: int| 0 <= k < i ==> digit(#[trigger] s@[k]),
            acc as int == radix_value(s@.take(i as int), base, val),
        decreases n - i,
    {
        let c = s.get_char(i);
        let u = c as u32;
        let d: u64 = if 48 <= u && u <= 57 {
            (u - 48) as u64
        } else if hex && 97 <= u && u <= 102 {
            (u - 87) as u64
        } else if hex && 65 <= u && u <= 70 {
            (u - 55) as u64
        } else {
            proof {
                assert(((c as u32) as int) == (c as int));
                assert(!digit(s@[i as int]));
            }
            return None;
        };
        proof {
            assert(((c as u32) as int) == (c as int));
            assert(digit(s@[i as int]));
            assert(d as int == val(s@[i as int]));
        }
        let ghost pre: int = acc as int;
        let next = match acc.checked_mul(b) {
            Some(shifted) => shifted.checked_add(d),
            None => None,
        };
        match next {
            Some(v) => {
                acc = v;
            },
            None => {
                proof {
                    assert(pre * base + d as int > u64::MAX) by (nonlinear_arith)
                        requires
                            pre >= 0,
                            d >= 0,
                            base == b as int,
                            (pre * base > u64::MAX) || (pre * base <= u64::MAX && pre * base
                                + d as int > u64::MAX),
                    ;
                    assert(s@.take(i as int + 1).drop_last() == s@.take(i as int));
                    assert(s@.take(i as int + 1).last() == s@[i as int]);
                    assert(radix_value(s@.take(i as int + 1), base, val) > u64::MAX);
                    if valid_u64_text(s@, base, digit, val) {
                        assert(forall|k: int| 0 <= k < s@.len() ==> val(#[trigger] s@[k]) >= 0);
                        lemma_radix_value_prefix(s@, base, val, i as int + 1);
                        assert(false);
                    }
                }
                return None;
            },
        }
        proof {
            assert(s@.take(i as int + 1).drop_last() == s@.take(i as int));
            assert(s@.take(i as int + 1).last() == s@[i as int]);
            assert(acc as int == radix_value(s@.take(i as int + 1), base, val));
        }
        i = i + 1;
    }
    proof {
        assert(s@.take(n as int) == s@);
        if !valid_u64_text(s@, base, digit, val) {
            assert(false);
        }
    }
    Some(acc)
}

/// Parses a 64-bit value from its decimal encoding: the denoted value
/// exactly when the text is non-empty, all decimal digits, and in range;
/// nothing otherwise.
pub fn parse_u64_dec(s: &str) -> (r: Option<u64>)
    ensures
        r is Some <==> valid_u64_text(
            s@,
            10,
            |c: char| is_dec_digit(c),
            |c: char| dec_digit_value(c),
        ),
        r matches Some(v) ==> v as int == radix_value(s@, 10, |c: char| dec_digit_value(c)),
{
    parse_u64_radix(s, false)
}

/// Parses a 64-bit value from its hexadecimal encoding (either letter
/// case, no prefix): the denoted value exactly when the text is non-empty,
/// all hexadecimal digits, and in range; nothing otherwise.
pub fn parse_u64_hex(s: &str) -> (r: Option<u64>)
    ensures
        r is Some <==> valid_u64_text(
            s@,
            16,
            |c: char| is_hex_digit(c),
            |c: char| hex_digit_value(c),
        ),
        r matches Some(v) ==> v as int == radix_value(s@, 16, |c: char| hex_digit_value(c)),
{
    parse_u64_radix(s, true)
}

/// Parses a machine-size value from its decimal encoding: the denoted
/// value exactly when the text is a well-formed encoding that also fits in
/// `usize`; nothing otherwise.
pub fn parse_usize_dec(s: &str) -> (r: Option<usize>)
    ensures
        r is Some <==> (valid_u64_text(
            s@,
            10,
            |c: char| is_dec_digit(c),
            |c: char| dec_digit_value(c),
        ) && radix_value(s@, 10, |c: char| dec_digit_value(c)) <= usize::MAX),
        r matches Some(v) ==> v as int == radix_value(s@, 10, |c: char| dec_digit_value(c)),
{
    match parse_u64_dec(s) {
        Some(v) => {
            if v <= usize::MAX as u64 {
                Some(v as usize)
            } else {
                None
            }
        },
        None => None,
    }
}

} // verus!
