//! Decimal numerals: reading a signed `i32` out of a text token, and
//! writing an integer back as text.

use vstd::prelude::*;
use vstd::string::*;

verus! {

/// The magnitude of `i32::MIN`, the largest magnitude a signed 32-bit
/// numeral may have (and only with a `-` sign).
pub const I32_MAG: i64 = 2147483648;

/// `c` is a decimal digit.
pub open spec fn is_digit(c: char) -> bool {
    48 <= c as int && c as int <= 57
}

/// The value of a single decimal digit.
pub open spec fn digit_value(c: char) -> int {
    c as int - 48
}

/// Every character of `s` is a decimal digit.
pub open spec fn all_digits(s: Seq<char>) -> bool {
    forall|i: int| 0 <= i < s.len() ==> is_digit(#[trigger] s[i])
}

/// The value of a run of decimal digits, most significant first.
pub open spec fn digits_value(s: Seq<char>) -> int
    decreases s.len(),
{
    if s.len() == 0 {
        0
    } else {
        digits_value(s.drop_last()) * 10 + digit_value(s.last())
    }
}

/// Reading a signed decimal numeral: an optional single `+` or `-`, then at
/// least one digit and nothing else.  `None` where the text has any other
/// shape.
pub open spec fn parse_int(s: Seq<char>) -> Option<int> {
    if s.len() > 0 && (s[0] == '+' || s[0] == '-') {
        let mag = s.subrange(1, s.len() as int);
        if mag.len() > 0 && all_digits(mag) {
            Some(if s[0] == '-' { -digits_value(mag) } else { digits_value(mag) })
        } else {
            None
        }
    } else if s.len() > 0 && all_digits(s) {
        Some(digits_value(s))
    } else {
        None
    }
}

/// Reading an `i32`: the numeral's value where it fits the type's range,
/// `None` where the text is no numeral or the value overflows.
pub open spec fn parse_i32(s: Seq<char>) -> Option<int> {
    match parse_int(s) {
        Some(v) => if i32::MIN <= v && v <= i32::MAX {
            Some(v)
        } else {
            None
        },
        None => None,
    }
}

proof fn lemma_digits_value_nonneg(s: Seq<char>)
    requires
        all_digits(s),
    ensures
        digits_value(s) >= 0,
    decreases s.len(),
{
    if s.len() > 0 {
        assert(all_digits(s.drop_last()));
        lemma_digits_value_nonneg(s.drop_last());
    }
}

/// Reads a signed decimal `i32` from `s`, exactly as [`parse_i32`] says:
/// `None` on an empty token, a stray character, or a value outside the
/// `i32` range.
#[verifier::loop_isolation(false)]
pub fn parse_i32_str(s: &str) -> (r: Option<i32>)
    ensures
        match r {
            Some(v) => parse_i32(s@) == Some(v as int),
            None => parse_i32(s@) is None,
        },
{
    let n = s.unicode_len();
    let mut start: usize = 0;
    let mut negative: bool = false;
    if n > 0 {
        let c0 = s.get_char(0);
        if c0 == '-' {
            negative = true;
            start = 1;
        } else if c0 == '+' {
            start = 1;
        }
    }
    if start >= n {
        // an empty token, or a bare sign
        return None;
    }
    let ghost mag: Seq<char> = s@.subrange(start as int, n as int);
    proof {
        if start == 0 {
            assert(mag =~= s@);
        }
        assert(all_digits(mag) ==> parse_int(s@) == Some(
            if negative {
                -digits_value(mag)
            } else {
                digits_value(mag)
            },
        ));
        assert(!all_digits(mag) ==> parse_int(s@) is None);
    }
    let mut acc: i64 = 0;
    let mut i: usize = start;
    while i < n
        invariant
            start <= i <= n,
            start < n,
            n == s@.len(),
            mag == s@.subrange(start as int, n as int),
            forall|k: int| start <= k < i ==> is_digit(#[trigger] s@[k]),
            0 <= acc <= I32_MAG + 1,
            digits_value(s@.subrange(start as int, i as int)) <= I32_MAG as int ==> acc
                == digits_value(s@.subrange(start as int, i as int)),
            digits_value(s@.subrange(start as int, i as int)) > I32_MAG as int ==> acc == I32_MAG
                + 1,
        decreases n - i,
    {
        let c = s.get_char(i);
        let cv = c as u32;
        if cv < 48 || cv > 57 {
            proof {
                assert(c as int == cv as int);
                assert(mag[i - start] == s@[i as int]);
                assert(!is_digit(mag[i - start]));
            }
            return None;
        }
        let d = (cv - 48) as i64;
        proof {
            let pfx = s@.subrange(start as int, i as int);
            let pfx2 = s@.subrange(start as int, i + 1);
            assert(pfx2.drop_last() =~= pfx);
            assert(pfx2.last() == s@[i as int]);
            assert(digits_value(pfx2) == digits_value(pfx) * 10 + digit_value(s@[i as int]));
            assert(d == digit_value(s@[i as int]));
            assert(all_digits(pfx));
            lemma_digits_value_nonneg(pfx);
            if digits_value(pfx) > I32_MAG as int {
                assert(digits_value(pfx) * 10 >= digits_value(pfx)) by (nonlinear_arith)
                    requires
                        digits_value(pfx) >= 0,
                ;
            } else {
                assert(digits_value(pfx) * 10 <= I32_MAG as int * 10) by (nonlinear_arith)
                    requires
                        digits_value(pfx) <= I32_MAG as int,
                        digits_value(pfx) >= 0,
                ;
            }
        }
        if acc <= I32_MAG {
            acc = acc * 10 + d;
            if acc > I32_MAG {
                acc = I32_MAG + 1;
            }
        }
        i += 1;
    }
    proof {
        assert(mag =~= s@.subrange(start as int, n as int));
        assert(all_digits(mag));
        lemma_digits_value_nonneg(mag);
    }
    if negative {
        if acc > I32_MAG {
            None
        } else if acc == I32_MAG {
            Some(i32::MIN)
        } else {
            Some(-(acc as i32))
        }
    } else {
        if acc >= I32_MAG {
            None
        } else {
            Some(acc as i32)
        }
    }
}

/// The decimal digit standing for the value `d`.
pub open spec fn digit_char(d: int) -> char {
    if d == 0 {
        '0'
    } else if d == 1 {
        '1'
    } else if d == 2 {
        '2'
    } else if d == 3 {
        '3'
    } else if d == 4 {
        '4'
    } else if d == 5 {
        '5'
    } else if d == 6 {
        '6'
    } else if d == 7 {
        '7'
    } else if d == 8 {
        '8'
    } else {
        '9'
    }
}

/// The canonical decimal digits of a value `n >= 0`, most significant
/// first, with no leading zero except for `0` itself.
pub open spec fn dec_digits(n: int) -> Seq<char>
    decreases n,
{
    if n < 10 {
        seq![digit_char(n)]
    } else {
        dec_digits(n / 10).push(digit_char(n % 10))
    }
}

/// The canonical decimal numeral of any integer: a `-` sign first where
/// `n` is negative.
pub open spec fn dec_str(n: int) -> Seq<char> {
    if n < 0 {
        seq!['-'] + dec_digits(-n)
    } else {
        dec_digits(n)
    }
}

/// The canonical digits of `n` are digits, at least one of them, and they
/// read back as `n`.
pub proof fn lemma_dec_digits(n: int)
    requires
        n >= 0,
    ensures
        all_digits(dec_digits(n)),
        dec_digits(n).len() >= 1,
        digits_value(dec_digits(n)) == n,
    decreases n,
{
    if n < 10 {
        let s = seq![digit_char(n)];
        assert(s.drop_last() =~= Seq::<char>::empty());
        assert(digits_value(Seq::<char>::empty()) == 0);
        assert(digits_value(s) == digit_value(digit_char(n)));
    } else {
        lemma_dec_digits(n / 10);
        let s = dec_digits(n / 10).push(digit_char(n % 10));
        assert(s.drop_last() =~= dec_digits(n / 10));
        assert(digits_value(s) == digits_value(dec_digits(n / 10)) * 10 + digit_value(
            digit_char(n % 10),
        ));
    }
}

/// Writing a value in `i32`'s range and reading it back is the identity.
pub proof fn lemma_parse_dec_str(n: int)
    requires
        0 <= n <= i32::MAX,
    ensures
        parse_i32(dec_str(n)) == Some(n),
{
    lemma_dec_digits(n);
    let s = dec_str(n);
    assert(s == dec_digits(n));
    assert(is_digit(s[0]));
    assert(s[0] != '+' && s[0] != '-') by {
        if s[0] == '+' || s[0] == '-' {
            assert(s[0] as int == 43 || s[0] as int == 45);
        }
    }
    assert(parse_int(s) == Some(digits_value(s)));
}

fn digit_str(d: u64) -> (r: &'static str)
    requires
        d < 10,
    ensures
        r@ == seq![digit_char(d as int)],
{
    proof {
        reveal_strlit("0");
        reveal_strlit("1");
        reveal_strlit("2");
        reveal_strlit("3");
        reveal_strlit("4");
        reveal_strlit("5");
        reveal_strlit("6");
        reveal_strlit("7");
        reveal_strlit("8");
        reveal_strlit("9");
        assert("0"@ =~= seq!['0']);
        assert("1"@ =~= seq!['1']);
        assert("2"@ =~= seq!['2']);
        assert("3"@ =~= seq!['3']);
        assert("4"@ =~= seq!['4']);
        assert("5"@ =~= seq!['5']);
        assert("6"@ =~= seq!['6']);
        assert("7"@ =~= seq!['7']);
        assert("8"@ =~= seq!['8']);
        assert("9"@ =~= seq!['9']);
    }
    if d == 0 {
        "0"
    } else if d == 1 {
        "1"
    } else if d == 2 {
        "2"
    } else if d == 3 {
        "3"
    } else if d == 4 {
        "4"
    } else if d == 5 {
        "5"
    } else if d == 6 {
        "6"
    } else if d == 7 {
        "7"
    } else if d == 8 {
        "8"
    } else {
        "9"
    }
}

/// Writes `m` as its canonical decimal digits.
pub fn u64_to_string(m: u64) -> (r: String)
    ensures
        r@ == dec_digits(m as int),
    decreases m,
{
    if m < 10 {
        digit_str(m).to_owned()
    } else {
        let mut r = u64_to_string(m / 10);
        r.append(digit_str(m % 10));
        proof {
            assert(dec_digits(m as int) == dec_digits(m as int / 10).push(
                digit_char(m as int % 10),
            ));
            assert(dec_digits(m as int / 10).push(digit_char(m as int % 10)) =~= dec_digits(
                m as int / 10,
            ) + seq![digit_char(m as int % 10)]);
        }
        r
    }
}

/// Writes `n` as its canonical signed decimal numeral.
pub fn i64_to_string(n: i64) -> (r: String)
    requires
        n > i64::MIN,
    ensures
        r@ == dec_str(n as int),
{
    if n < 0 {
        let mut r = "-".to_owned();
        let rest = u64_to_string((-n) as u64);
        r.append(rest.as_str());
        proof {
            reveal_strlit("-");
            assert("-"@ =~= seq!['-']);
        }
        r
    } else {
        u64_to_string(n as u64)
    }
}

} // verus!
