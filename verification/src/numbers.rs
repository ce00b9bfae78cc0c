//! Decimal reading and writing of range bounds: `parse_i32` mirrors the
//! standard signed-integer grammar (optional sign, one or more digits,
//! value within the 32-bit range), and `i32_digits` renders a value with
//! the default integer-to-string conversion (no zero-padding).

use vstd::prelude::*;

verus! {

pub open spec fn is_digit(b: u8) -> bool {
    48 <= b <= 57
}

pub open spec fn all_digits(s: Seq<u8>) -> bool {
    forall|i: int| 0 <= i < s.len() ==> is_digit(#[trigger] s[i])
}

/// Numeric value of a digit string (most significant digit first).
pub open spec fn digits_val(s: Seq<u8>) -> nat
    recommends
        all_digits(s),
    decreases s.len(),
{
    if s.len() == 0 {
        0
    } else {
        digits_val(s.drop_last()) * 10 + (if is_digit(s.last()) {
            (s.last() - 48) as nat
        } else {
            0
        })
    }
}

/// The value of a digit string is at least the value of any of its prefixes.
pub proof fn lemma_digits_val_prefix(s: Seq<u8>, i: int)
    requires
        0 <= i <= s.len(),
    ensures
        digits_val(s.subrange(0, i)) <= digits_val(s),
    decreases s.len() - i,
{
    if i == s.len() {
        assert(s.subrange(0, i) =~= s);
    } else {
        assert(s.drop_last().subrange(0, i) =~= s.subrange(0, i));
        lemma_digits_val_prefix(s.drop_last(), i);
    }
}

/// Result of reading a signed decimal from `s`: `None` on an empty digit
/// part, a byte other than a digit, or a value outside the 32-bit range.
pub open spec fn spec_parse_i32(s: Seq<u8>) -> Option<i32> {
    let signed = s.len() > 0 && (s[0] == 43 || s[0] == 45);
    let neg = s.len() > 0 && s[0] == 45;
    let ds = if signed {
        s.drop_first()
    } else {
        s
    };
    if ds.len() == 0 || !all_digits(ds) {
        None
    } else if neg && digits_val(ds) <= 2147483648 {
        Some((0 - digits_val(ds)) as i32)
    } else if !neg && digits_val(ds) <= 2147483647 {
        Some(digits_val(ds) as i32)
    } else {
        None
    }
}

/// Reads a signed decimal number from `s`.
pub fn parse_i32(s: &Vec<u8>) -> (r: Option<i32>)
    ensures
        r == spec_parse_i32(s@),
{
    if s.len() == 0 {
        return None;
    }
    let b0 = s[0];
    let neg = b0 == 45;
    let start: usize = if b0 == 45 || b0 == 43 {
        1
    } else {
        0
    };
    let ghost ds = if start == 1 {
        s@.drop_first()
    } else {
        s@
    };
    proof {
        assert(ds =~= s@.subrange(start as int, s@.len() as int));
    }
    if s.len() == start {
        return None;
    }
    let mut acc: u64 = 0;
    let mut i: usize = start;
    while i < s.len()
        invariant
            start <= i <= s@.len(),
            ds == s@.subrange(start as int, s@.len() as int),
            ds.len() == s@.len() - start,
            acc <= 2147483648,
            acc == digits_val(s@.subrange(start as int, i as int)),
            all_digits(s@.subrange(start as int, i as int)),
            s@.len() > 0,
            start <= 1,
            (start == 1) <==> (s@[0] == 43 || s@[0] == 45),
            neg <==> s@[0] == 45,
            ds.len() > 0,
        decreases s@.len() - i,
    {
        let b = s[i];
        if b < 48 || b > 57 {
            proof {
                assert(!is_digit(ds[i - start]));
            }
            return None;
        }
        acc = acc * 10 + (b - 48) as u64;
        proof {
            let sub1 = s@.subrange(start as int, i + 1 as int);
            assert(sub1.drop_last() =~= s@.subrange(start as int, i as int));
            assert(sub1.last() == s@[i as int]);
            assert(forall|j: int| 0 <= j < sub1.len() ==> is_digit(#[trigger] sub1[j]));
            assert(acc == digits_val(sub1));
        }
        if acc > 2147483648 {
            proof {
                let sub1 = s@.subrange(start as int, i + 1 as int);
                assert(ds.subrange(0, i + 1 - start) =~= sub1);
                lemma_digits_val_prefix(ds, i + 1 - start);
                assert(digits_val(ds) >= digits_val(sub1));
                assert(digits_val(sub1) == acc);
                let dss = if s@[0] == 43 || s@[0] == 45 {
                    s@.drop_first()
                } else {
                    s@
                };
                assert(dss =~= ds);
                assert(digits_val(dss) > 2147483648);
                assert(spec_parse_i32(s@) is None);
            }
            return None;
        }
        i = i + 1;
    }
    proof {
        assert(s@.subrange(start as int, i as int) =~= ds);
    }
    if neg {
        Some((0 - acc as i64) as i32)
    } else {
        if acc > 2147483647 {
            return None;
        }
        Some(acc as i32)
    }
}

/// Decimal digits of a non-negative number, most significant first.
pub open spec fn u_digits(n: nat) -> Seq<u8>
    decreases n,
{
    if n < 10 {
        seq![(48 + n) as u8]
    } else {
        u_digits(n / 10).push((48 + n % 10) as u8)
    }
}

/// Default rendering of a signed number: a minus sign for negative values,
/// then the decimal digits, no zero-padding.
pub open spec fn spec_i32_digits(v: int) -> Seq<u8> {
    if v < 0 {
        seq![45u8] + u_digits((0 - v) as nat)
    } else {
        u_digits(v as nat)
    }
}

fn u32_digits(n: u32) -> (r: Vec<u8>)
    ensures
        r@ == u_digits(n as nat),
    decreases n,
{
    if n < 10 {
        let mut r: Vec<u8> = Vec::new();
        r.push(48 + n as u8);
        proof {
            assert(r@ =~= u_digits(n as nat));
        }
        r
    } else {
        assert(n / 10 < n) by (nonlinear_arith)
            requires n >= 10,
        ;
        let mut r = u32_digits(n / 10);
        r.push(48 + (n % 10) as u8);
        proof {
            assert(r@ =~= u_digits(n as nat));
        }
        r
    }
}

/// Renders `v` as decimal digits.
pub fn i32_digits(v: i32) -> (r: Vec<u8>)
    ensures
        r@ == spec_i32_digits(v as int),
{
    if v >= 0 {
        u32_digits(v as u32)
    } else {
        let mag: u32 = (0 - (v as i64)) as u32;
        let mut r: Vec<u8> = Vec::new();
        r.push(45);
        let ds = u32_digits(mag);
        crate::util::append_bytes(&mut r, &ds);
        proof {
            assert(r@ =~= spec_i32_digits(v as int));
        }
        r
    }
}

} // verus!
