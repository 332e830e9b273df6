//! Prices as scaled integers.
//!
//! A decimal price is held as its value times 10000, truncated toward
//! zero on parse, and rendered with exactly four fractional digits on
//! serialize. The fixed-point form survives parse/serialize cycles
//! exactly for up to four fractional digits and is lossy beyond them.

use vstd::prelude::*;

use crate::num::{dec_str, digits_val, find_char, is_digit, is_digits, lemma_dec_str,
    lemma_dec_str_len, lemma_digits_val_nonneg, lemma_find_char, lemma_find_char_unique,
    lemma_digits_val_upper, lemma_pad_str, pad_str, parse_u64, spec_parse_u64, u128_to_string,
    u128_to_string_pad};

verus! {

/// The fractional digits of a price, scaled to ten-thousandths:
/// truncated after four digits, padded with zeros before that.
pub open spec fn frac_scaled(fp: Seq<char>) -> int {
    if fp.len() >= 4 {
        digits_val(fp.subrange(0, 4))
    } else if fp.len() == 3 {
        digits_val(fp) * 10
    } else if fp.len() == 2 {
        digits_val(fp) * 100
    } else {
        digits_val(fp) * 1000
    }
}

/// The scaled value of an unsigned decimal price literal: digits, or
/// digits on both sides of a single leading dot.
pub open spec fn price_mag(s: Seq<char>) -> Option<int> {
    let d = find_char(s, '.');
    if 0 <= d < s.len() {
        let ip = s.subrange(0, d);
        let fp = s.subrange(d + 1, s.len() as int);
        if is_digits(ip) && is_digits(fp) {
            Some(digits_val(ip) * 10000 + frac_scaled(fp))
        } else {
            None
        }
    } else {
        if is_digits(s) {
            Some(digits_val(s) * 10000)
        } else {
            None
        }
    }
}

/// The scaled value of a decimal price literal with an optional
/// leading minus sign; truncation is toward zero.
pub open spec fn spec_price_val(s: Seq<char>) -> Option<int> {
    if s.len() > 0 && s[0] == '-' {
        match price_mag(s.drop_first()) {
            Some(v) => Some(-v),
            None => None,
        }
    } else {
        price_mag(s)
    }
}

/// What price parsing yields: the scaled value when the text is a
/// decimal price literal and the value fits the price type, `None`
/// otherwise.
pub open spec fn spec_parse_price(s: Seq<char>) -> Option<i32> {
    match spec_price_val(s) {
        Some(v) => if i32::MIN <= v <= i32::MAX {
            Some(v as i32)
        } else {
            None
        },
        None => None,
    }
}

/// Rendering of a non-negative scaled price: the integer part, a dot,
/// and exactly four fractional digits.
pub open spec fn spec_price_mag_str(m: int) -> Seq<char> {
    dec_str(m / 10000) + seq!['.'] + pad_str(m % 10000, 4)
}

/// Rendering of a scaled price, negative values signed.
pub open spec fn spec_price_str(p: int) -> Seq<char> {
    if p < 0 {
        seq!['-'] + spec_price_mag_str(-p)
    } else {
        spec_price_mag_str(p)
    }
}

/// Parses decimal price text into its scaled integer value, truncating
/// toward zero beyond four fractional digits.
pub fn parse_price(s: &str) -> (r: Option<i32>)
    ensures
        r == spec_parse_price(s@),
{
    let n = s.unicode_len();
    let mut neg: bool = false;
    let mut pos: usize = 0;
    if n > 0 && s.get_char(0) == '-' {
        neg = true;
        pos = 1;
    }
    let ghost body = if neg {
        s@.drop_first()
    } else {
        s@
    };
    proof {
        assert(body =~= s@.subrange(pos as int, n as int));
    }
    let mut d: usize = pos;
    while d < n && s.get_char(d) != '.'
        invariant
            pos <= d <= n,
            n == s@.len(),
            forall|k: int| pos <= k < d ==> s@[k] != '.',
        decreases n - d,
    {
        d = d + 1;
    }
    let mag: Option<u64> = if d == n {
        // no dot: the whole body is the integer part
        proof {
            assert forall|k: int| 0 <= k < body.len() implies body[k] != '.' by {
                assert(body[k] == s@[pos + k]);
            }
            lemma_find_char(body, '.');
            if is_digits(body) {
                lemma_digits_val_nonneg(body);
            }
        }
        let ip_s = s.substring_char(pos, n);
        match parse_u64(ip_s) {
            None => {
                proof {
                    if is_digits(body) {
                        assert(digits_val(body) > u64::MAX);
                    }
                }
                None
            },
            Some(iv) => {
                if iv > 214748u64 {
                    proof {
                        assert(digits_val(body) * 10000 > 2147483648int);
                    }
                    None
                } else {
                    Some(iv * 10000)
                }
            },
        }
    } else {
        // dot at d: integer part before it, fractional digits after it
        let ghost ip = body.subrange(0, d - pos);
        let ghost fp = body.subrange(d - pos + 1, body.len() as int);
        proof {
            assert(body[d - pos] == s@[d as int]);
            assert forall|k: int| 0 <= k < d - pos implies body[k] != '.' by {
                assert(body[k] == s@[pos + k]);
            }
            lemma_find_char_unique(body, '.', d - pos);
            assert(ip =~= s@.subrange(pos as int, d as int));
            assert(fp =~= s@.subrange(d + 1, n as int));
            if is_digits(ip) {
                lemma_digits_val_nonneg(ip);
            }
            if is_digits(fp) {
                lemma_digits_val_nonneg(fp);
            }
        }
        let ip_s = s.substring_char(pos, d);
        let fp_len = n - d - 1;
        let mut fp_digits: bool = fp_len > 0;
        let mut k: usize = d + 1;
        while k < n && fp_digits
            invariant
                d + 1 <= k <= n,
                n == s@.len(),
                fp_digits ==> fp_len > 0 && forall|j: int|
                    d + 1 <= j < k ==> is_digit(#[trigger] s@[j]),
                !fp_digits ==> !is_digits(fp),
                fp == s@.subrange(d + 1, n as int),
                fp_len == n - d - 1,
            decreases n - k,
        {
            let c = s.get_char(k);
            if c < '0' || c > '9' {
                proof {
                    assert(fp[k - d - 1] == s@[k as int]);
                }
                fp_digits = false;
            }
            k = k + 1;
        }
        proof {
            if fp_digits {
                assert forall|j: int| 0 <= j < fp.len() implies is_digit(#[trigger] fp[j]) by {
                    assert(fp[j] == s@[d + 1 + j]);
                }
            }
        }
        if !fp_digits {
            None
        } else {
            let cut = if fp_len > 4 {
                d + 5
            } else {
                n
            };
            let fp4_s = s.substring_char(d + 1, cut);
            let ghost fp4 = s@.subrange(d + 1, cut as int);
            proof {
                assert(is_digits(fp4)) by {
                    assert forall|j: int| 0 <= j < fp4.len() implies is_digit(
                        #[trigger] fp4[j],
                    ) by {
                        assert(fp4[j] == fp[j]);
                    }
                }
                lemma_digits_val_nonneg(fp4);
                if fp.len() >= 4 {
                    assert(fp4 =~= fp.subrange(0, 4));
                } else {
                    assert(fp4 =~= fp);
                }
            }
            match (parse_u64(ip_s), parse_u64(fp4_s)) {
                (Some(iv), Some(fv)) => {
                    proof {
                        lemma_digits_val_upper(fp4);
                    }
                    let frac: u64 = if fp_len == 1 {
                        fv * 1000
                    } else if fp_len == 2 {
                        fv * 100
                    } else if fp_len == 3 {
                        fv * 10
                    } else {
                        fv
                    };
                    proof {
                        assert(frac == frac_scaled(fp));
                        assert(frac < 10000);
                    }
                    if iv > 214748u64 {
                        proof {
                            assert(digits_val(ip) * 10000 + frac_scaled(fp) > 2147483648int);
                        }
                        None
                    } else {
                        Some(iv * 10000 + frac)
                    }
                },
                _ => {
                    proof {
                        lemma_digits_val_upper(fp4);
                        assert(spec_parse_u64(fp4) is Some);
                        if is_digits(ip) {
                            assert(digits_val(ip) > u64::MAX);
                            assert(digits_val(ip) * 10000 + frac_scaled(fp) > 2147483648int);
                        }
                    }
                    None
                },
            }
        }
    };
    match mag {
        None => None,
        Some(m) => {
            if neg {
                if m <= 2147483648u64 {
                    let v: i64 = -(m as i64);
                    Some(v as i32)
                } else {
                    None
                }
            } else {
                if m <= 2147483647u64 {
                    Some(m as i32)
                } else {
                    None
                }
            }
        },
    }
}

/// Renders a non-negative scaled price.
fn price_mag_to_string(m: u64) -> (r: String)
    ensures
        r@ == spec_price_mag_str(m as int),
{
    let mut r = u128_to_string((m / 10000) as u128);
    r.append(".");
    let frac = u128_to_string_pad((m % 10000) as u128, 4);
    r.append(frac.as_str());
    proof {
        reveal_strlit(".");
        assert(r@ =~= spec_price_mag_str(m as int));
    }
    r
}

/// Renders a scaled price as decimal text with exactly four
/// fractional digits.
pub fn price_to_string(p: i32) -> (r: String)
    ensures
        r@ == spec_price_str(p as int),
{
    if p < 0 {
        let m: i64 = -(p as i64);
        let mut r = String::from_str("-");
        proof {
            reveal_strlit("-");
        }
        r.append(price_mag_to_string(m as u64).as_str());
        proof {
            assert(r@ =~= spec_price_str(p as int));
        }
        r
    } else {
        price_mag_to_string(p as u64)
    }
}

/// Serializing any scaled price and parsing the text back recovers the
/// price exactly: the fixed-point round trip.
pub proof fn lemma_price_round_trip(p: i32)
    ensures
        spec_parse_price(spec_price_str(p as int)) == Some(p),
{
    if p >= 0 {
        lemma_price_round_trip_mag(p as int);
        let s = spec_price_str(p as int);
        lemma_dec_str((p as int) / 10000);
        assert(s[0] == dec_str((p as int) / 10000)[0]);
        assert(is_digit(s[0]));
        assert(s[0] != '-');
        assert(spec_price_val(s) == price_mag(s));
    } else {
        let m = -(p as int);
        lemma_price_round_trip_mag(m);
        let s = spec_price_str(p as int);
        assert(s[0] == '-');
        assert(s.drop_first() =~= spec_price_mag_str(m));
        assert(spec_price_val(s) == Some(-m));
    }
}

/// The unsigned half of the round trip: rendering a non-negative
/// scaled price parses back to the same scaled value.
proof fn lemma_price_round_trip_mag(m: int)
    requires
        m >= 0,
    ensures
        price_mag(spec_price_mag_str(m)) == Some(m),
{
    let ipart = m / 10000;
    let fpart = m % 10000;
    vstd::arithmetic::div_mod::lemma_fundamental_div_mod(m, 10000);
    assert(0 <= fpart < 10000);
    assert(ipart >= 0);
    let ds = dec_str(ipart);
    let ps = pad_str(fpart, 4);
    lemma_dec_str(ipart);
    lemma_dec_str(fpart);
    lemma_dec_str_len(fpart);
    lemma_pad_str(fpart, 4);
    assert(ps.len() == 4);
    let s = spec_price_mag_str(m);
    assert(s[ds.len() as int] == '.');
    assert forall|k: int| 0 <= k < ds.len() implies s[k] != '.' by {
        assert(s[k] == ds[k]);
        assert(is_digit(ds[k]));
    }
    lemma_find_char_unique(s, '.', ds.len() as int);
    let ip = s.subrange(0, ds.len() as int);
    let fp = s.subrange(ds.len() as int + 1, s.len() as int);
    assert(ip =~= ds);
    assert(fp =~= ps);
    assert(fp.subrange(0, 4) =~= fp);
    assert(frac_scaled(fp) == fpart);
    assert(digits_val(ip) * 10000 + frac_scaled(fp) == m);
}

} // verus!
