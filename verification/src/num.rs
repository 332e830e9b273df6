//! Decimal text: specifications and verified conversions between
//! non-negative integers and their decimal digit strings, plus a
//! first-occurrence search used by the field splitter.

use vstd::prelude::*;

verus! {

/// True of the ten ASCII digit characters.
pub open spec fn is_digit(c: char) -> bool {
    '0' <= c && c <= '9'
}

/// Numeric value of a digit character.
pub open spec fn digit_val(c: char) -> int {
    c as int - 48
}

/// The digit character for a value between 0 and 9.
pub open spec fn digit_char(d: int) -> char {
    if d == 0 {
        '0'
    } else if d == 1 {
        '1'
    } else if d == 2 {
        '2'
    } else if d == 3 {
        '3'
    } else if d == 4 {
        '4'
    } else if d == 5 {
        '5'
    } else if d == 6 {
        '6'
    } else if d == 7 {
        '7'
    } else if d == 8 {
        '8'
    } else {
        '9'
    }
}

/// A non-empty string of ASCII digits.
pub open spec fn is_digits(s: Seq<char>) -> bool {
    s.len() > 0 && forall|i: int| 0 <= i < s.len() ==> is_digit(#[trigger] s[i])
}

/// Value of a digit string read in base ten; 0 for the empty string.
pub open spec fn digits_val(s: Seq<char>) -> int
    decreases s.len(),
{
    if s.len() == 0 {
        0
    } else {
        digits_val(s.drop_last()) * 10 + digit_val(s.last())
    }
}

/// Canonical decimal rendering of a non-negative integer.
pub open spec fn dec_str(n: int) -> Seq<char>
    decreases n,
{
    if n < 0 {
        Seq::empty()
    } else if n < 10 {
        seq![digit_char(n)]
    } else {
        dec_str(n / 10).push(digit_char(n % 10))
    }
}

/// Decimal rendering of a non-negative integer, left-padded with zeros
/// to at least `w` characters.
pub open spec fn pad_str(n: int, w: int) -> Seq<char> {
    if dec_str(n).len() >= w {
        dec_str(n)
    } else {
        Seq::new((w - dec_str(n).len()) as nat, |i: int| '0') + dec_str(n)
    }
}

/// Index of the first occurrence of `c` in `s`, or -1 if `c` does not occur.
pub open spec fn find_char(s: Seq<char>, c: char) -> int
    decreases s.len(),
{
    if s.len() == 0 {
        -1
    } else if s[0] == c {
        0
    } else if find_char(s.drop_first(), c) == -1 {
        -1
    } else {
        find_char(s.drop_first(), c) + 1
    }
}

/// `find_char` returns -1 exactly when `c` is absent, and otherwise the
/// least index holding `c`.
pub proof fn lemma_find_char(s: Seq<char>, c: char)
    ensures
        find_char(s, c) == -1 ==> forall|i: int| 0 <= i < s.len() ==> s[i] != c,
        find_char(s, c) != -1 ==> {
            &&& 0 <= find_char(s, c) < s.len()
            &&& s[find_char(s, c)] == c
            &&& forall|i: int| 0 <= i < find_char(s, c) ==> s[i] != c
        },
    decreases s.len(),
{
    if s.len() > 0 && s[0] != c {
        lemma_find_char(s.drop_first(), c);
        let r = find_char(s.drop_first(), c);
        if r != -1 {
            assert forall|i: int| 0 <= i < r + 1 implies s[i] != c by {
                if i > 0 {
                    assert(s.drop_first()[i - 1] != c);
                }
            }
        } else {
            assert forall|i: int| 0 <= i < s.len() implies s[i] != c by {
                if i > 0 {
                    assert(s.drop_first()[i - 1] != c);
                }
            }
        }
    }
}

/// Any index that holds `c` with no earlier occurrence is the one
/// `find_char` returns.
pub proof fn lemma_find_char_unique(s: Seq<char>, c: char, k: int)
    requires
        0 <= k < s.len(),
        s[k] == c,
        forall|i: int| 0 <= i < k ==> s[i] != c,
    ensures
        find_char(s, c) == k,
{
    lemma_find_char(s, c);
    let r = find_char(s, c);
    if r == -1 {
    } else if r < k {
    } else if r > k {
    }
}

/// A string of digits reads back to a non-negative value.
pub proof fn lemma_digits_val_nonneg(s: Seq<char>)
    requires
        forall|i: int| 0 <= i < s.len() ==> is_digit(#[trigger] s[i]),
    ensures
        digits_val(s) >= 0,
    decreases s.len(),
{
    if s.len() > 0 {
        assert forall|i: int| 0 <= i < s.drop_last().len() implies is_digit(
            #[trigger] s.drop_last()[i],
        ) by {
            assert(s.drop_last()[i] == s[i]);
        }
        lemma_digits_val_nonneg(s.drop_last());
        assert(is_digit(s.last()));
    }
}

/// Short digit strings read back to small values: at most one digit
/// stays below ten, and so on up to four digits below ten thousand.
pub proof fn lemma_digits_val_upper(s: Seq<char>)
    requires
        forall|i: int| 0 <= i < s.len() ==> is_digit(#[trigger] s[i]),
    ensures
        s.len() <= 1 ==> digits_val(s) < 10,
        s.len() <= 2 ==> digits_val(s) < 100,
        s.len() <= 3 ==> digits_val(s) < 1000,
        s.len() <= 4 ==> digits_val(s) < 10000,
    decreases s.len(),
{
    if s.len() > 0 {
        assert forall|i: int| 0 <= i < s.drop_last().len() implies is_digit(
            #[trigger] s.drop_last()[i],
        ) by {
            assert(s.drop_last()[i] == s[i]);
        }
        lemma_digits_val_upper(s.drop_last());
        assert(is_digit(s.last()));
        assert(digit_val(s.last()) <= 9);
    }
}

/// The digits of a rendered number, and the value they read back to.
pub proof fn lemma_dec_str(n: int)
    requires
        n >= 0,
    ensures
        is_digits(dec_str(n)),
        digits_val(dec_str(n)) == n,
        dec_str(n).len() >= 1,
    decreases n,
{
    if n < 10 {
        let s = seq![digit_char(n)];
        assert(dec_str(n) =~= s);
        assert(s.drop_last() =~= Seq::<char>::empty());
        assert(digits_val(s.drop_last()) == 0);
        assert(digits_val(s) == digits_val(s.drop_last()) * 10 + digit_val(s.last()));
    } else {
        lemma_dec_str(n / 10);
        let pre = dec_str(n / 10);
        let whole = dec_str(n);
        assert(whole == pre.push(digit_char(n % 10)));
        assert(whole.drop_last() =~= pre);
        assert(whole.last() == digit_char(n % 10));
        assert(digit_val(digit_char(n % 10)) == n % 10);
        assert(digits_val(whole) == (n / 10) * 10 + n % 10);
        assert((n / 10) * 10 + n % 10 == n) by {
            vstd::arithmetic::div_mod::lemma_fundamental_div_mod(n, 10);
        }
        assert forall|i: int| 0 <= i < whole.len() implies is_digit(whole[i]) by {
            if i < pre.len() {
                assert(whole[i] == pre[i]);
            }
        }
    }
}

/// Rendered numbers below a power of ten are short: bounds relating the
/// magnitude of `n` to the length of its decimal rendering.
pub proof fn lemma_dec_str_len(n: int)
    requires
        n >= 0,
    ensures
        n < 10 ==> dec_str(n).len() == 1,
        n < 100 ==> dec_str(n).len() <= 2,
        n < 1000 ==> dec_str(n).len() <= 3,
        n < 10000 ==> dec_str(n).len() <= 4,
    decreases n,
{
    if n >= 10 {
        lemma_dec_str_len(n / 10);
    }
}

/// Leading zeros do not change the value a digit string reads back to.
pub proof fn lemma_digits_val_leading_zeros(z: Seq<char>, s: Seq<char>)
    requires
        forall|i: int| 0 <= i < z.len() ==> z[i] == '0',
    ensures
        digits_val(z + s) == digits_val(s),
    decreases s.len(),
{
    if s.len() == 0 {
        assert(z + s =~= z);
        lemma_digits_val_all_zeros(z);
    } else {
        assert((z + s).drop_last() =~= z + s.drop_last());
        assert((z + s).last() == s.last());
        lemma_digits_val_leading_zeros(z, s.drop_last());
    }
}

/// A string of zeros reads back to zero.
pub proof fn lemma_digits_val_all_zeros(z: Seq<char>)
    requires
        forall|i: int| 0 <= i < z.len() ==> z[i] == '0',
    ensures
        digits_val(z) == 0,
    decreases z.len(),
{
    if z.len() > 0 {
        assert(z.drop_last() =~= z.subrange(0, z.len() - 1));
        lemma_digits_val_all_zeros(z.drop_last());
    }
}

/// The padded rendering is all digits, reads back to the same value, and
/// is exactly `w` long whenever the plain rendering does not exceed `w`.
pub proof fn lemma_pad_str(n: int, w: int)
    requires
        n >= 0,
        w >= 0,
    ensures
        is_digits(pad_str(n, w)) || w == 0,
        digits_val(pad_str(n, w)) == n,
        pad_str(n, w).len() >= w,
        dec_str(n).len() <= w ==> pad_str(n, w).len() == w,
{
    lemma_dec_str(n);
    if dec_str(n).len() < w {
        let z = Seq::new((w - dec_str(n).len()) as nat, |i: int| '0');
        lemma_digits_val_leading_zeros(z, dec_str(n));
        assert forall|i: int| 0 <= i < pad_str(n, w).len() implies is_digit(
            #[trigger] pad_str(n, w)[i],
        ) by {
            if i >= z.len() {
                assert(pad_str(n, w)[i] == dec_str(n)[i - z.len()]);
            }
        }
    }
}

/// Emits the single-character string for one decimal digit.
pub fn digit_str(d: u8) -> (r: &'static str)
    requires
        d < 10,
    ensures
        r@ =~= seq![digit_char(d as int)],
{
    proof {
        reveal_strlit("0");
        reveal_strlit("1");
        reveal_strlit("2");
        reveal_strlit("3");
        reveal_strlit("4");
        reveal_strlit("5");
        reveal_strlit("6");
        reveal_strlit("7");
        reveal_strlit("8");
        reveal_strlit("9");
    }
    match d {
        0 => "0",
        1 => "1",
        2 => "2",
        3 => "3",
        4 => "4",
        5 => "5",
        6 => "6",
        7 => "7",
        8 => "8",
        _ => "9",
    }
}

/// Renders a number as decimal text.
pub fn u128_to_string(n: u128) -> (r: String)
    ensures
        r@ == dec_str(n as int),
    decreases n,
{
    if n < 10 {
        let r = String::from_str(digit_str(n as u8));
        proof {
            assert(r@ =~= dec_str(n as int));
        }
        r
    } else {
        let mut r = u128_to_string(n / 10);
        r.append(digit_str((n % 10) as u8));
        proof {
            assert(r@ =~= dec_str(n as int));
        }
        r
    }
}

/// Renders a number as decimal text, zero-padded on the left to at
/// least `width` characters.
pub fn u128_to_string_pad(n: u128, width: usize) -> (r: String)
    ensures
        r@ == pad_str(n as int, width as int),
{
    let ds = u128_to_string(n);
    let nd = ds.as_str().unicode_len();
    let mut r = String::new();
    if nd < width {
        let mut i: usize = 0;
        while i < width - nd
            invariant
                i <= width - nd,
                nd < width,
                r@ =~= Seq::new(i as nat, |j: int| '0'),
            decreases width - nd - i,
        {
            r.append("0");
            proof {
                reveal_strlit("0");
                assert(r@ =~= Seq::new((i + 1) as nat, |j: int| '0'));
            }
            i = i + 1;
        }
    }
    r.append(ds.as_str());
    proof {
        if nd < width {
            assert(r@ =~= pad_str(n as int, width as int));
        } else {
            assert(r@ =~= dec_str(n as int));
        }
    }
    r
}

/// Reads a non-empty all-digit string as a number, if it is one and its
/// value fits in a `u64`.
pub open spec fn spec_parse_u64(s: Seq<char>) -> Option<u64> {
    if is_digits(s) && digits_val(s) <= u64::MAX {
        Some(digits_val(s) as u64)
    } else {
        None
    }
}

/// Parses decimal text: `Some` exactly for a non-empty string of digits
/// whose value fits.
pub fn parse_u64(s: &str) -> (r: Option<u64>)
    ensures
        r == spec_parse_u64(s@),
{
    let n = s.unicode_len();
    if n == 0 {
        return None;
    }
    let mut acc: u64 = 0;
    let mut over: bool = false;
    let mut i: usize = 0;
    while i < n
        invariant
            0 <= i <= n,
            n == s@.len(),
            forall|j: int| 0 <= j < i ==> is_digit(#[trigger] s@[j]),
            !over ==> acc == digits_val(s@.subrange(0, i as int)),
            over ==> digits_val(s@.subrange(0, i as int)) > u64::MAX,
        decreases n - i,
    {
        let c = s.get_char(i);
        if c < '0' || c > '9' {
            proof {
                assert(!is_digit(s@[i as int]));
            }
            return None;
        }
        let d: u64 = (c as u32 as u64) - 48;
        proof {
            let pre = s@.subrange(0, i as int);
            let cur = s@.subrange(0, i + 1 as int);
            assert(cur.drop_last() =~= pre);
            assert(cur.last() == s@[i as int]);
            assert(digits_val(cur) == digits_val(pre) * 10 + digit_val(s@[i as int]));
        }
        if over {
            proof {
                let pre = s@.subrange(0, i as int);
                assert(digits_val(pre) * 10 + digit_val(s@[i as int]) > u64::MAX);
            }
        } else if acc > (u64::MAX - d) / 10 {
            proof {
                let pre = s@.subrange(0, i as int);
                assert(acc * 10 + d > u64::MAX) by {
                    assert(acc >= (u64::MAX - d) / 10 + 1);
                    assert(acc * 10 >= ((u64::MAX - d) / 10 + 1) * 10) by (nonlinear_arith)
                        requires
                            acc >= (u64::MAX - d) / 10 + 1,
                    ;
                    vstd::arithmetic::div_mod::lemma_fundamental_div_mod(
                        u64::MAX - d,
                        10,
                    );
                }
            }
            over = true;
        } else {
            proof {
                assert(acc * 10 + d <= u64::MAX) by {
                    assert(acc <= (u64::MAX - d) / 10);
                    assert(acc * 10 <= ((u64::MAX - d) / 10) * 10) by (nonlinear_arith)
                        requires
                            acc <= (u64::MAX - d) / 10,
                    ;
                    vstd::arithmetic::div_mod::lemma_fundamental_div_mod(
                        u64::MAX - d,
                        10,
                    );
                }
            }
            acc = acc * 10 + d;
        }
        i = i + 1;
    }
    proof {
        assert(s@.subrange(0, n as int) =~= s@);
    }
    if over {
        None
    } else {
        Some(acc)
    }
}

/// Reads a digit string as an unsigned 32-bit number, if it is one and
/// its value fits.
pub open spec fn spec_parse_u32(s: Seq<char>) -> Option<u32> {
    if is_digits(s) && digits_val(s) <= u32::MAX {
        Some(digits_val(s) as u32)
    } else {
        None
    }
}

/// Reads an optionally minus-signed digit string as a signed 32-bit
/// number, if it is one and its value fits.
pub open spec fn spec_parse_i32(s: Seq<char>) -> Option<i32> {
    if s.len() > 0 && s[0] == '-' {
        if is_digits(s.drop_first()) && digits_val(s.drop_first()) <= 2147483648int {
            Some((-digits_val(s.drop_first())) as i32)
        } else {
            None
        }
    } else {
        if is_digits(s) && digits_val(s) <= i32::MAX {
            Some(digits_val(s) as i32)
        } else {
            None
        }
    }
}

/// Parses decimal text as an unsigned 32-bit number: `Some` exactly
/// for a non-empty string of digits whose value fits.
pub fn parse_u32(s: &str) -> (r: Option<u32>)
    ensures
        r == spec_parse_u32(s@),
{
    proof {
        if is_digits(s@) {
            lemma_digits_val_nonneg(s@);
        }
    }
    match parse_u64(s) {
        Some(v) => {
            if v <= 4294967295u64 {
                Some(v as u32)
            } else {
                None
            }
        },
        None => None,
    }
}

/// Parses decimal text as a signed 32-bit number: an optional leading
/// minus sign, then digits, the value fitting the type.
pub fn parse_i32(s: &str) -> (r: Option<i32>)
    ensures
        r == spec_parse_i32(s@),
{
    let n = s.unicode_len();
    if n > 0 && s.get_char(0) == '-' {
        let rest = s.substring_char(1, n);
        proof {
            assert(rest@ =~= s@.drop_first());
            if is_digits(rest@) {
                lemma_digits_val_nonneg(rest@);
            }
        }
        match parse_u64(rest) {
            Some(v) => {
                if v <= 2147483648u64 {
                    let w: i64 = -(v as i64);
                    Some(w as i32)
                } else {
                    None
                }
            },
            None => None,
        }
    } else {
        proof {
            if is_digits(s@) {
                lemma_digits_val_nonneg(s@);
            }
        }
        match parse_u64(s) {
            Some(v) => {
                if v <= 2147483647u64 {
                    Some(v as i32)
                } else {
                    None
                }
            },
            None => None,
        }
    }
}

/// Compares two strings character by character.
pub fn str_eq(a: &str, b: &str) -> (r: bool)
    ensures
        r == (a@ == b@),
{
    let la = a.unicode_len();
    let lb = b.unicode_len();
    if la != lb {
        return false;
    }
    let mut i: usize = 0;
    while i < la
        invariant
            0 <= i <= la,
            la == a@.len(),
            la == b@.len(),
            forall|j: int| 0 <= j < i ==> a@[j] == b@[j],
        decreases la - i,
    {
        if a.get_char(i) != b.get_char(i) {
            return false;
        }
        i = i + 1;
    }
    proof {
        assert(a@ =~= b@);
    }
    true
}

} // verus!
