//! Decimal and hexadecimal digit strings: rendering for control lines and
//! parsing for their `key=value` fields.

use vstd::prelude::*;

verus! {

/// Is `b` the byte of a decimal digit?
pub open spec fn is_dec_digit(b: u8) -> bool {
    48 <= b <= 57
}

/// Are all bytes of `s` decimal digits?
pub open spec fn all_dec_digits(s: Seq<u8>) -> bool {
    forall|i: int| 0 <= i < s.len() ==> is_dec_digit(#[trigger] s[i])
}

/// Is `b` the byte of a hexadecimal digit (either case)?
pub open spec fn is_hex_digit(b: u8) -> bool {
    ||| 48 <= b <= 57
    ||| 97 <= b <= 102
    ||| 65 <= b <= 70
}

/// Are all bytes of `s` hexadecimal digits?
pub open spec fn all_hex_digits(s: Seq<u8>) -> bool {
    forall|i: int| 0 <= i < s.len() ==> is_hex_digit(#[trigger] s[i])
}

/// The numeric value of one hexadecimal digit byte.
pub open spec fn hex_digit_val(b: u8) -> nat {
    if 48 <= b <= 57 {
        (b - 48) as nat
    } else if 97 <= b <= 102 {
        (b - 87) as nat
    } else {
        (b - 55) as nat
    }
}

/// The value of a decimal digit string, most significant digit first.
pub open spec fn dec_val(s: Seq<u8>) -> nat
    decreases s.len(),
{
    if s.len() == 0 {
        0
    } else {
        dec_val(s.drop_last()) * 10 + (s.last() - 48) as nat
    }
}

/// The value of a hexadecimal digit string, most significant digit first.
pub open spec fn hex_val(s: Seq<u8>) -> nat
    decreases s.len(),
{
    if s.len() == 0 {
        0
    } else {
        hex_val(s.drop_last()) * 16 + hex_digit_val(s.last())
    }
}

/// The decimal digit bytes of `n`, most significant first, no leading zeros.
pub open spec fn dec_digits(n: nat) -> Seq<u8>
    decreases n,
{
    if n < 10 {
        seq![(48 + n) as u8]
    } else {
        dec_digits(n / 10) + seq![(48 + n % 10) as u8]
    }
}

/// The lowercase hexadecimal digit byte for a value below 16.
pub open spec fn hex_digit_byte(d: nat) -> u8 {
    if d < 10 {
        (48 + d) as u8
    } else {
        (87 + d) as u8
    }
}

/// The last `k` hexadecimal digit bytes of `n`, zero padded, lowercase.
pub open spec fn hex_digits(n: nat, k: nat) -> Seq<u8>
    decreases k,
{
    if k == 0 {
        Seq::empty()
    } else {
        hex_digits(n / 16, (k - 1) as nat) + seq![hex_digit_byte(n % 16)]
    }
}

/// The eight-digit zero-padded lowercase hexadecimal rendering of `n`.
pub open spec fn hex8_of(n: u32) -> Seq<u8> {
    hex_digits(n as nat, 8)
}

/// A value keeps or grows when digits are appended on the right.
pub proof fn lemma_dec_val_prefix(s: Seq<u8>, i: int)
    requires
        0 <= i <= s.len(),
    ensures
        dec_val(s.subrange(0, i)) <= dec_val(s),
    decreases s.len() - i,
{
    if i < s.len() {
        lemma_dec_val_prefix(s, i + 1);
        let p = s.subrange(0, i + 1);
        assert(p.drop_last() =~= s.subrange(0, i));
        assert(dec_val(s.subrange(0, i)) <= dec_val(p));
    } else {
        assert(s.subrange(0, i) =~= s);
    }
}

/// A value keeps or grows when hexadecimal digits are appended on the right.
pub proof fn lemma_hex_val_prefix(s: Seq<u8>, i: int)
    requires
        0 <= i <= s.len(),
    ensures
        hex_val(s.subrange(0, i)) <= hex_val(s),
    decreases s.len() - i,
{
    if i < s.len() {
        lemma_hex_val_prefix(s, i + 1);
        let p = s.subrange(0, i + 1);
        assert(p.drop_last() =~= s.subrange(0, i));
        assert(hex_val(s.subrange(0, i)) <= hex_val(p));
    } else {
        assert(s.subrange(0, i) =~= s);
    }
}

/// Rendering a number and reading the digits back returns the number.
pub proof fn lemma_dec_digits_val(n: nat)
    ensures
        dec_digits(n).len() >= 1,
        all_dec_digits(dec_digits(n)),
        dec_val(dec_digits(n)) == n,
    decreases n,
{
    if n < 10 {
        let d = dec_digits(n);
        assert(d.drop_last() =~= Seq::<u8>::empty());
        assert(dec_val(d) == dec_val(Seq::<u8>::empty()) * 10 + (d.last() - 48) as nat);
        assert((48 + n) as u8 == 48 + n);
    } else {
        lemma_dec_digits_val(n / 10);
        let d = dec_digits(n);
        assert(d.drop_last() =~= dec_digits(n / 10));
        assert(dec_val(d) == dec_val(dec_digits(n / 10)) * 10 + (d.last() - 48) as nat);
        assert(n / 10 * 10 + n % 10 == n);
    }
}

/// Append the decimal digits of `n` to `out`.
pub fn push_dec_u64(n: u64, out: &mut Vec<u8>)
    ensures
        final(out)@ == old(out)@ + dec_digits(n as nat),
    decreases n,
{
    if n >= 10 {
        push_dec_u64(n / 10, out);
    }
    let d: u8 = 48 + (n % 10) as u8;
    out.push(d);
    proof {
        if n >= 10 {
            assert(final(out)@ =~= old(out)@ + dec_digits(n as nat));
        } else {
            assert(final(out)@ =~= old(out)@ + dec_digits(n as nat));
        }
    }
}

/// Append the last `k` lowercase hexadecimal digits of `n` to `out`.
pub fn push_hex_digits(n: u32, k: usize, out: &mut Vec<u8>)
    requires
        k <= 8,
    ensures
        final(out)@ == old(out)@ + hex_digits(n as nat, k as nat),
    decreases k,
{
    if k > 0 {
        push_hex_digits(n / 16, k - 1, out);
        let d: u8 = (n % 16) as u8;
        let digit: u8 = if d < 10 {
            48 + d
        } else {
            87 + d
        };
        out.push(digit);
        proof {
            assert(final(out)@ =~= old(out)@ + hex_digits(n as nat, k as nat));
        }
    } else {
        proof {
            assert(final(out)@ =~= old(out)@ + hex_digits(n as nat, 0));
        }
    }
}

/// Append the eight-digit zero-padded lowercase hexadecimal form of `n`.
pub fn push_hex8_u32(n: u32, out: &mut Vec<u8>)
    ensures
        final(out)@ == old(out)@ + hex8_of(n),
{
    push_hex_digits(n, 8, out);
}

/// Read a decimal digit string as a `u64`; `None` when the string is empty,
/// holds a byte that is no decimal digit, or the value does not fit.
pub fn parse_dec_u64(digits: &[u8]) -> (r: Option<u64>)
    ensures
        r is Some <==> digits@.len() > 0 && all_dec_digits(digits@) && dec_val(digits@)
            <= u64::MAX,
        r matches Some(v) ==> v == dec_val(digits@),
{
    if digits.len() == 0 {
        return None;
    }
    let mut acc: u64 = 0;
    let mut i: usize = 0;
    while i < digits.len()
        invariant
            0 < digits@.len(),
            i <= digits@.len(),
            all_dec_digits(digits@.subrange(0, i as int)),
            acc == dec_val(digits@.subrange(0, i as int)),
        decreases digits@.len() - i,
    {
        let b = digits[i];
        if b < 48 || b > 57 {
            return None;
        }
        let d: u64 = (b - 48) as u64;
        let shifted = match acc.checked_mul(10) {
            Some(v) => v,
            None => {
                proof {
                    assert(digits@.subrange(0, i + 1 as int).drop_last() =~= digits@.subrange(
                        0,
                        i as int,
                    ));
                    lemma_dec_val_prefix(digits@, i + 1);
                }
                return None;
            },
        };
        acc = match shifted.checked_add(d) {
            Some(v) => v,
            None => {
                proof {
                    assert(digits@.subrange(0, i + 1 as int).drop_last() =~= digits@.subrange(
                        0,
                        i as int,
                    ));
                    lemma_dec_val_prefix(digits@, i + 1);
                }
                return None;
            },
        };
        proof {
            assert(digits@.subrange(0, i + 1 as int).drop_last() =~= digits@.subrange(0, i as int));
        }
        i = i + 1;
    }
    proof {
        assert(digits@.subrange(0, digits@.len() as int) =~= digits@);
    }
    Some(acc)
}

/// Read a hexadecimal digit string as a `u32`; `None` when the string is
/// empty, holds a byte that is no hexadecimal digit, or the value does not
/// fit.
pub fn parse_hex_u32(digits: &[u8]) -> (r: Option<u32>)
    ensures
        r is Some <==> digits@.len() > 0 && all_hex_digits(digits@) && hex_val(digits@)
            <= u32::MAX,
        r matches Some(v) ==> v == hex_val(digits@),
{
    if digits.len() == 0 {
        return None;
    }
    let mut acc: u64 = 0;
    let mut i: usize = 0;
    while i < digits.len()
        invariant
            0 < digits@.len(),
            i <= digits@.len(),
            all_hex_digits(digits@.subrange(0, i as int)),
            acc == hex_val(digits@.subrange(0, i as int)),
            acc <= u32::MAX,
        decreases digits@.len() - i,
    {
        let b = digits[i];
        if !((48 <= b && b <= 57) || (97 <= b && b <= 102) || (65 <= b && b <= 70)) {
            return None;
        }
        let d: u64 = if 48 <= b && b <= 57 {
            (b - 48) as u64
        } else if 97 <= b && b <= 102 {
            (b - 87) as u64
        } else {
            (b - 55) as u64
        };
        acc = acc * 16 + d;
        proof {
            assert(digits@.subrange(0, i + 1 as int).drop_last() =~= digits@.subrange(0, i as int));
        }
        if acc > u32::MAX as u64 {
            proof {
                lemma_hex_val_prefix(digits@, i + 1);
            }
            return None;
        }
        i = i + 1;
    }
    proof {
        assert(digits@.subrange(0, digits@.len() as int) =~= digits@);
    }
    Some(acc as u32)
}

} // verus!
