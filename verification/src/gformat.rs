//! The text rules of C's `%g` as glibc applies them, given the digits of the
//! value in exponential and in fixed notation: which notation is used, how
//! trailing zeros go, and how the exponent is written.

use vstd::prelude::*;
use crate::ply::{all_digits, decimal_bytes, digits_value};

verus! {

/// Position of the last `e` in `s`.
pub open spec fn last_e(s: Seq<u8>) -> Option<int>
    decreases s.len(),
{
    if s.len() == 0 {
        None
    } else if s.last() == 101 {
        Some(s.len() - 1)
    } else {
        last_e(s.drop_last())
    }
}

/// `<i32 as FromStr>::from_str`: an optional sign, then decimal digits,
/// within range.
pub open spec fn parse_i32_spec(s: Seq<u8>) -> Option<i32> {
    let neg = s.len() > 0 && s[0] == 45;
    let d = if s.len() > 0 && (s[0] == 43 || s[0] == 45) {
        s.drop_first()
    } else {
        s
    };
    if d.len() == 0 || !all_digits(d) {
        None
    } else if neg {
        if digits_value(d) > 0x8000_0000 {
            None
        } else {
            Some((-digits_value(d)) as i32)
        }
    } else if digits_value(d) > 0x7fff_ffff {
        None
    } else {
        Some(digits_value(d) as i32)
    }
}

/// `s` without its trailing `0` bytes.
pub open spec fn strip_zeros(s: Seq<u8>) -> Seq<u8>
    decreases s.len(),
{
    if s.len() > 0 && s.last() == 48 {
        strip_zeros(s.drop_last())
    } else {
        s
    }
}

/// A number's text without the zeros that end its fraction, and without a
/// `.` left last; texts without a `.` stay as they are.
pub open spec fn strip_fraction(s: Seq<u8>) -> Seq<u8> {
    if s.contains(46) {
        let t = strip_zeros(s);
        if t.len() > 0 && t.last() == 46 {
            t.drop_last()
        } else {
            t
        }
    } else {
        s
    }
}

/// glibc's exponent: `e`, the sign, and at least two digits.
pub open spec fn exponent_text(x: int) -> Seq<u8> {
    let a: nat = if x < 0 {
        (-x) as nat
    } else {
        x as nat
    };
    seq![101u8, if x < 0 {
        45u8
    } else {
        43u8
    }] + (if a < 10 {
        seq![48u8]
    } else {
        Seq::<u8>::empty()
    }) + decimal_bytes(a)
}

/// `%g` writes the exponential notation when the decimal exponent `x` of the
/// value rounded to `p` significant digits is below `-4` or at least `p`.
pub open spec fn uses_exponent(x: int, p: int) -> bool {
    x < -4 || x >= p
}

/// What `%g` makes of a value: the final text in exponential notation, or
/// the number of fraction digits to write it with in fixed notation.
#[derive(PartialEq, Eq, Debug)]
pub enum GStyle {
    Exponential(Vec<u8>),
    Fixed(usize),
}

fn find_last_e(s: &[u8]) -> (r: Option<usize>)
    ensures
        match r {
            Some(i) => last_e(s@) == Some(i as int) && i < s@.len(),
            None => last_e(s@) is None,
        },
{
    let mut i = s.len();
    proof {
        assert(s@.take(s@.len() as int) =~= s@);
    }
    while i > 0
        invariant
            i <= s@.len(),
            last_e(s@) == last_e(s@.take(i as int)),
        decreases i,
    {
        proof {
            assert(s@.take(i as int).drop_last() =~= s@.take(i - 1));
            assert(s@.take(i as int).last() == s@[i - 1]);
        }
        if s[i - 1] == 101 {
            return Some(i - 1);
        }
        i -= 1;
    }
    None
}

proof fn lemma_digits_prefix(s: Seq<u8>, i: int)
    requires
        0 <= i <= s.len(),
        all_digits(s),
    ensures
        digits_value(s.take(i)) <= digits_value(s),
    decreases s.len() - i,
{
    if i < s.len() {
        lemma_digits_prefix(s, i + 1);
        assert(s.take(i + 1).drop_last() =~= s.take(i));
    } else {
        assert(s.take(i) =~= s);
    }
}

/// Parses a signed decimal `i32`.
fn parse_i32(s: &[u8]) -> (r: Option<i32>)
    ensures
        r == parse_i32_spec(s@),
{
    let signed = s.len() > 0 && (s[0] == 43 || s[0] == 45);
    let neg = s.len() > 0 && s[0] == 45;
    let start: usize = if signed {
        1
    } else {
        0
    };
    let ghost d = if s@.len() > 0 && (s@[0] == 43 || s@[0] == 45) {
        s@.drop_first()
    } else {
        s@
    };
    proof {
        assert(d =~= s@.skip(start as int));
    }
    if start == s.len() {
        return None;
    }
    let mut value: u64 = 0;
    let mut i: usize = start;
    while i < s.len()
        invariant
            start <= i <= s@.len(),
            start < s@.len(),
            d == s@.skip(start as int),
            d == (if s@.len() > 0 && (s@[0] == 43 || s@[0] == 45) {
                s@.drop_first()
            } else {
                s@
            }),
            neg == (s@.len() > 0 && s@[0] == 45),
            all_digits(d.take(i - start)),
            value as nat == digits_value(d.take(i - start)),
            value <= 0x8000_0000,
        decreases s@.len() - i,
    {
        let c = s[i];
        proof {
            assert(d.take(i - start + 1).drop_last() =~= d.take(i - start));
            assert(d.take(i - start + 1).last() == c);
            assert(d[i - start] == c);
        }
        if c < 48 || c > 57 {
            proof {
                assert(!all_digits(d));
            }
            return None;
        }
        let next = value * 10 + (c - 48) as u64;
        if next > 0x8000_0000 {
            proof {
                assert(all_digits(d.take(i - start + 1)));
                assert(digits_value(d.take(i - start + 1)) == next);
                if all_digits(d) {
                    lemma_digits_prefix(d, i - start + 1);
                }
            }
            return None;
        }
        value = next;
        i += 1;
    }
    proof {
        assert(d.take(i - start) =~= d);
    }
    if neg {
        Some((0i64 - value as i64) as i32)
    } else if value > 0x7fff_ffff {
        None
    } else {
        Some(value as i32)
    }
}

/// A number's text with the zeros that end its fraction removed, then a `.`
/// left last; texts without a `.` come back unchanged.
pub fn strip_fraction_zeros(s: &[u8]) -> (r: Vec<u8>)
    ensures
        r@ == strip_fraction(s@),
{
    let mut has_point = false;
    let mut j: usize = 0;
    while j < s.len()
        invariant
            j <= s@.len(),
            has_point == exists|k: int| 0 <= k < j && #[trigger] s@[k] == 46,
        decreases s@.len() - j,
    {
        if s[j] == 46 {
            has_point = true;
        }
        j += 1;
    }
    proof {
        if has_point {
            let k = choose|k: int| 0 <= k < j && #[trigger] s@[k] == 46;
            assert(s@.contains(46));
        }
        if s@.contains(46) {
            let k = choose|k: int| 0 <= k < s@.len() && s@[k] == 46;
            assert(s@[k] == 46);
        }
    }
    let mut end = s.len();
    proof {
        assert(s@.take(s@.len() as int) =~= s@);
    }
    if has_point {
        while end > 0 && s[end - 1] == 48
            invariant
                end <= s@.len(),
                strip_zeros(s@) == strip_zeros(s@.take(end as int)),
            decreases end,
        {
            proof {
                assert(s@.take(end as int).drop_last() =~= s@.take(end - 1));
            }
            end -= 1;
        }
        proof {
            assert(strip_zeros(s@.take(end as int)) == s@.take(end as int));
        }
        if end > 0 && s[end - 1] == 46 {
            end -= 1;
            proof {
                assert(s@.take(end + 1).drop_last() =~= s@.take(end as int));
            }
        }
    }
    vstd::slice::slice_to_vec(vstd::slice::slice_subrange(s, 0, end))
}

/// glibc's exponent text for `x`: `e`, the sign, at least two digits.
pub fn exponent_suffix(x: i32) -> (r: Vec<u8>)
    requires
        x > i32::MIN,
    ensures
        r@ == exponent_text(x as int),
{
    let mut out: Vec<u8> = Vec::new();
    out.push(101);
    if x < 0 {
        out.push(45);
    } else {
        out.push(43);
    }
    let a: u64 = if x < 0 {
        (0 - x) as u64
    } else {
        x as u64
    };
    if a < 10 {
        out.push(48);
    }
    crate::ply::push_decimal(&mut out, a);
    proof {
        assert(out@ =~= exponent_text(x as int));
    }
    out
}

/// `%g` at precision `p`, given the value's text in exponential notation
/// with `p - 1` fraction digits (`{:.*e}`): the exponential text, or the
/// fraction digits for fixed notation. `None` when the text has no readable
/// exponent, or one whose magnitude is not an `i32`.
pub fn g_style(e_text: &[u8], p: usize) -> (r: Option<GStyle>)
    requires
        1 <= p <= i32::MAX,
    ensures
        match last_e(e_text@) {
            None => r is None,
            Some(epos) => match parse_i32_spec(e_text@.skip(epos + 1)) {
                None => r is None,
                Some(x) => if x == i32::MIN {
                    r is None
                } else if uses_exponent(x as int, p as int) {
                    r matches Some(GStyle::Exponential(t)) && t@ == strip_fraction(e_text@.take(epos))
                        + exponent_text(x as int)
                } else {
                    r == Some(GStyle::Fixed(if p - 1 - x > 0 {
                        (p - 1 - x) as usize
                    } else {
                        0usize
                    }))
                },
            },
        },
{
    let n = e_text.len();
    let epos = match find_last_e(e_text) {
        Some(i) => i,
        None => {
            return None;
        },
    };
    let exp_text = vstd::slice::slice_subrange(e_text, epos + 1, n);
    proof {
        assert(exp_text@ =~= e_text@.skip(epos + 1));
    }
    let x = match parse_i32(exp_text) {
        Some(x) => x,
        None => {
            return None;
        },
    };
    if x == i32::MIN {
        return None;
    }
    let pi = p as i32;
    if x < -4 || x >= pi {
        let mant = vstd::slice::slice_subrange(e_text, 0, epos);
        let mut t = strip_fraction_zeros(mant);
        let mut suffix = exponent_suffix(x);
        t.append(&mut suffix);
        proof {
            assert(mant@ =~= e_text@.take(epos as int));
        }
        Some(GStyle::Exponential(t))
    } else {
        let f: i64 = pi as i64 - 1 - x as i64;
        Some(GStyle::Fixed(if f > 0 {
            f as usize
        } else {
            0
        }))
    }
}

} // verus!
