//! Parsing text into limb storage: digits in any base 2..=36 with
//! case-insensitive letters, an optional leading sign, optional grouping
//! separators, and optional prefix-implied bases. Input digits are grouped
//! into the largest chunk whose value fits a single limb, so the magnitude
//! is touched once per chunk rather than once per digit.
use vstd::prelude::*;

use crate::error::Error;
use crate::mul::pow_nat;
use crate::sign::{IBig, Sign};
use crate::ubig::UBig;
use vstd::string::StrSliceExecFns;

verus! {

/// The numeric value a character stands for as a digit, or 99 when it is no
/// digit at all. Letters are case-insensitive and carry the values 10..=35.
pub open spec fn digit_of_char(c: char) -> nat {
    let v = c as u32;
    if 48 <= v <= 57 {
        (v - 48) as nat
    } else if 97 <= v <= 122 {
        (v - 87) as nat
    } else if 65 <= v <= 90 {
        (v - 55) as nat
    } else {
        99
    }
}

/// The same digit value read from an ASCII byte.
pub open spec fn digit_of_byte(b: u8) -> nat {
    if 48 <= b <= 57 {
        (b - 48) as nat
    } else if 97 <= b <= 122 {
        (b - 87) as nat
    } else if 65 <= b <= 90 {
        (b - 55) as nat
    } else {
        99
    }
}

/// A well-formed digit sequence for the given base: non-empty, every
/// character a digit of the base or a grouping separator, and no separator
/// at the start, at the end, or beside another separator.
pub open spec fn digits_ok(t: Seq<char>, radix: nat) -> bool {
    &&& t.len() > 0
    &&& digit_of_char(t[0]) < radix
    &&& digit_of_char(t[t.len() - 1]) < radix
    &&& forall|i: int| 0 <= i < t.len() ==> (t[i] == '_' || digit_of_char(#[trigger] t[i]) < radix)
    &&& forall|i: int| 0 <= i < t.len() - 1 ==> !(#[trigger] t[i] == '_' && t[i + 1] == '_')
}

/// The number a digit sequence denotes, reading left to right and skipping
/// separators.
pub open spec fn digits_value(t: Seq<char>, radix: nat) -> nat
    decreases t.len(),
{
    if t.len() == 0 {
        0
    } else if t[t.len() - 1] == '_' {
        digits_value(t.drop_last(), radix)
    } else {
        digits_value(t.drop_last(), radix) * radix + digit_of_char(t[t.len() - 1])
    }
}

/// What parsing a magnitude from text must return: the value of the digit
/// sequence after an optional leading `+`, or the first applicable error.
pub open spec fn spec_parse_mag(s: Seq<char>, radix: nat) -> Result<nat, Error> {
    if !(2 <= radix <= 36) {
        Err(Error::InvalidBase)
    } else {
        let t = if s.len() > 0 && s[0] == '+' {
            s.skip(1)
        } else {
            s
        };
        if t.len() == 0 {
            Err(Error::NoDigits)
        } else if digits_ok(t, radix) {
            Ok(digits_value(t, radix))
        } else {
            Err(Error::InvalidDigit)
        }
    }
}

/// What parsing a signed integer from text must return: an optional leading
/// `+` or `-`, then a digit sequence.
pub open spec fn spec_parse_int(s: Seq<char>, radix: nat) -> Result<int, Error> {
    if !(2 <= radix <= 36) {
        Err(Error::InvalidBase)
    } else {
        let neg = s.len() > 0 && s[0] == '-';
        let t = if s.len() > 0 && (s[0] == '+' || s[0] == '-') {
            s.skip(1)
        } else {
            s
        };
        if t.len() == 0 {
            Err(Error::NoDigits)
        } else if digits_ok(t, radix) {
            if neg {
                Ok(-(digits_value(t, radix) as int))
            } else {
                Ok(digits_value(t, radix) as int)
            }
        } else {
            Err(Error::InvalidDigit)
        }
    }
}

/// The base implied by a leading prefix, with the number of characters the
/// prefix occupies: `0b` names 2, `0o` names 8, `0x` names 16, and absence
/// names 10.
pub open spec fn spec_prefix_radix(t: Seq<char>) -> (nat, int) {
    if t.len() >= 2 && t[0] == '0' && t[1] == 'b' {
        (2, 2)
    } else if t.len() >= 2 && t[0] == '0' && t[1] == 'o' {
        (8, 2)
    } else if t.len() >= 2 && t[0] == '0' && t[1] == 'x' {
        (16, 2)
    } else {
        (10, 0)
    }
}

/// What parsing with prefix-detected base must return for a magnitude.
pub open spec fn spec_parse_prefixed_mag(s: Seq<char>) -> Result<(nat, nat), Error> {
    let t = if s.len() > 0 && s[0] == '+' {
        s.skip(1)
    } else {
        s
    };
    let rc = spec_prefix_radix(t);
    let d = t.skip(rc.1);
    if d.len() == 0 {
        Err(Error::NoDigits)
    } else if digits_ok(d, rc.0) {
        Ok((digits_value(d, rc.0), rc.0))
    } else {
        Err(Error::InvalidDigit)
    }
}

/// What parsing with prefix-detected base must return for a signed integer.
pub open spec fn spec_parse_prefixed_int(s: Seq<char>) -> Result<(int, nat), Error> {
    let neg = s.len() > 0 && s[0] == '-';
    let t = if s.len() > 0 && (s[0] == '+' || s[0] == '-') {
        s.skip(1)
    } else {
        s
    };
    let rc = spec_prefix_radix(t);
    let d = t.skip(rc.1);
    if d.len() == 0 {
        Err(Error::NoDigits)
    } else if digits_ok(d, rc.0) {
        if neg {
            Ok((-(digits_value(d, rc.0) as int), rc.0))
        } else {
            Ok((digits_value(d, rc.0) as int, rc.0))
        }
    } else {
        Err(Error::InvalidDigit)
    }
}

/// The ASCII range of a character agrees with its scalar value.
proof fn lemma_char_ascii_range(c: char)
    ensures
        ('\0' <= c && c <= '\u{7f}') <==> ((c as u32) < 128),
        (c as nat) == (c as u32),
{
}

/// An ASCII character's digit value can be read off its byte.
proof fn lemma_digit_byte_char(c: char)
    requires
        (c as nat) < 128,
    ensures
        digit_of_byte(c as u8) == digit_of_char(c),
        (c as u8) == 95 <==> c == '_',
{
    assert((c as u32) < 128);
    assert(c as u8 == c as u32);
}

/// `pow_nat` grows with its exponent for positive bases.
pub(crate) proof fn lemma_pow_nat_le(b: nat, m: nat, n: nat)
    requires
        b >= 1,
        m <= n,
    ensures
        pow_nat(b, m) <= pow_nat(b, n),
    decreases n,
{
    if m < n {
        lemma_pow_nat_le(b, m, (n - 1) as nat);
        assert(pow_nat(b, n) == b * pow_nat(b, (n - 1) as nat));
        assert(b * pow_nat(b, (n - 1) as nat) >= 1 * pow_nat(b, (n - 1) as nat))
            by (nonlinear_arith)
            requires
                b >= 1,
                pow_nat(b, (n - 1) as nat) >= 0,
        ;
    }
}

/// The chunk table entry for a base: the largest power of the base that
/// fits a single limb, together with its exponent, the chunk length.
pub(crate) fn radix_chunk(radix: u32) -> (res: (usize, u64))
    requires
        2 <= radix <= 36,
    ensures
        res.1 == pow_nat(radix as nat, res.0 as nat),
        res.0 >= 1,
        res.1 >= radix,
{
    let mut k: usize = 1;
    let mut rk: u64 = radix as u64;
    proof {
        assert(pow_nat(radix as nat, 0) == 1);
        assert(pow_nat(radix as nat, 1) == radix * pow_nat(radix as nat, 0));
    }
    while rk <= 0xffff_ffff_ffff_ffffu64 / (radix as u64) && k < 64
        invariant
            2 <= radix <= 36,
            k >= 1,
            rk == pow_nat(radix as nat, k as nat),
            rk >= radix,
        decreases 64 - k,
    {
        proof {
            let m: int = 0xffff_ffff_ffff_ffff;
            vstd::arithmetic::div_mod::lemma_fundamental_div_mod(m, radix as int);
            assert(rk * radix <= (m / (radix as int)) * radix) by (nonlinear_arith)
                requires
                    rk <= m / (radix as int),
                    radix >= 2,
            ;
            assert((m / (radix as int)) * radix <= m);
            assert(pow_nat(radix as nat, (k + 1) as nat) == radix * pow_nat(radix as nat, k as nat));
            assert(radix * rk == rk * radix) by (nonlinear_arith);
            assert(rk * radix >= rk * 2 >= radix) by (nonlinear_arith)
                requires
                    rk >= radix,
                    radix >= 2,
            ;
        }
        rk = rk * (radix as u64);
        k = k + 1;
    }
    (k, rk)
}

/// One left-to-right step of `digits_value`.
proof fn lemma_digits_value_step(t: Seq<char>, radix: nat, i: int)
    requires
        0 <= i < t.len(),
    ensures
        digits_value(t.take(i + 1), radix) == if t[i] == '_' {
            digits_value(t.take(i), radix)
        } else {
            digits_value(t.take(i), radix) * radix + digit_of_char(t[i])
        },
{
    let u = t.take(i + 1);
    assert(u.drop_last() =~= t.take(i));
    assert(u[u.len() - 1] == t[i]);
}

/// Parses the digit part `s[start..]` as a magnitude in the given base,
/// accumulating chunk by chunk.
fn parse_digits(s: &str, start: usize, radix: u32) -> (res: Result<UBig, Error>)
    requires
        s.is_ascii(),
        start as int <= s@.len(),
        2 <= radix <= 36,
    ensures
        ({
            let t = s@.skip(start as int);
            match res {
                Ok(x) => x.wf() && t.len() > 0 && digits_ok(t, radix as nat) && x.val()
                    == digits_value(t, radix as nat),
                Err(e) => (e == Error::NoDigits && t.len() == 0) || (e == Error::InvalidDigit
                    && t.len() > 0 && !digits_ok(t, radix as nat)),
            }
        }),
{
    broadcast use vstd::string::is_ascii_spec_bytes;
    broadcast use vstd::utf8::is_ascii_chars_nat_bound;

    let ghost t = s@.skip(start as int);
    let len = s.unicode_len();
    if start == len {
        return Err(Error::NoDigits);
    }
    // validation pass: every character a digit of the base, separators well
    // placed
    let mut i: usize = start;
    let mut prev_sep: bool = false;
    while i < len
        invariant
            s.is_ascii(),
            start <= i <= len,
            len == s@.len(),
            start < len,
            2 <= radix <= 36,
            t == s@.skip(start as int),
            prev_sep == (i > start && s@[i - 1] == '_'),
            prev_sep ==> i < len,
            forall|j: int|
                start <= j < i ==> (s@[j] == '_' || digit_of_char(#[trigger] s@[j])
                    < radix as nat),
            forall|j: int| start <= j < i - 1 ==> !(#[trigger] s@[j] == '_' && s@[j + 1] == '_'),
            i > start ==> digit_of_char(s@[start as int]) < radix as nat,
        decreases len - i,
    {
        let b = s.get_ascii(i);
        proof {
            lemma_digit_byte_char(s@[i as int]);
            assert(t[i - start] == s@[i as int]);
        }
        if b == 95 {
            // a separator may only stand between digits
            if i == start {
                proof {
                    assert(digit_of_char(t[0]) == 99);
                }
                return Err(Error::InvalidDigit);
            }
            if i + 1 == len {
                proof {
                    assert(digit_of_char(t[t.len() - 1]) == 99);
                }
                return Err(Error::InvalidDigit);
            }
            if prev_sep {
                proof {
                    assert(t[i - start - 1] == s@[i - 1]);
                    assert(t[i - start - 1] == '_' && t[i - start] == '_');
                }
                return Err(Error::InvalidDigit);
            }
            prev_sep = true;
        } else {
            let d = digit_byte_value(b);
            if d >= radix as u64 {
                proof {
                    assert(s@[i as int] != '_');
                    assert(!(t[i - start] == '_' || digit_of_char(t[i - start]) < radix as nat));
                }
                return Err(Error::InvalidDigit);
            }
            prev_sep = false;
        }
        i = i + 1;
    }
    proof {
        assert forall|j: int| 0 <= j < t.len() implies (t[j] == '_' || digit_of_char(
            #[trigger] t[j],
        ) < radix as nat) by {
            assert(t[j] == s@[j + start]);
        }
        assert forall|j: int| 0 <= j < t.len() - 1 implies !(#[trigger] t[j] == '_' && t[j + 1]
            == '_') by {
            assert(t[j] == s@[j + start] && t[j + 1] == s@[j + start + 1]);
        }
        assert(t[0] == s@[start as int]);
        assert(t[t.len() - 1] == s@[len - 1]);
        assert(s@[len - 1] != '_');
        lemma_digit_byte_char(s@[len - 1]);
        assert(digits_ok(t, radix as nat));
    }
    // accumulation pass: fold whole chunks into the magnitude
    let chunk = radix_chunk(radix);
    let k = chunk.0;
    let rk = chunk.1;
    let mut v = UBig::zero();
    let mut c: u64 = 0;
    let mut rj: u64 = 1;
    let mut j: usize = 0;
    let mut i: usize = start;
    proof {
        assert(t.take(0) =~= Seq::<char>::empty());
        assert(v.val() * 1 == 0) by (nonlinear_arith)
            requires
                v.val() == 0,
        ;
    }
    while i < len
        invariant
            s.is_ascii(),
            start <= i <= len,
            len == s@.len(),
            2 <= radix <= 36,
            t == s@.skip(start as int),
            digits_ok(t, radix as nat),
            rk == pow_nat(radix as nat, k as nat),
            k >= 1,
            rk >= radix,
            j <= k,
            rj == pow_nat(radix as nat, j as nat),
            c < rj || (j == 0 && c == 0),
            v.wf(),
            v.val() * rj + c == digits_value(t.take(i - start), radix as nat),
        decreases len - i,
    {
        let b = s.get_ascii(i);
        proof {
            lemma_digit_byte_char(s@[i as int]);
            lemma_digits_value_step(t, radix as nat, i - start);
            assert(t[i - start] == s@[i as int]);
        }
        if b != 95 {
            let d = digit_byte_value(b);
            proof {
                assert(s@[i as int] != '_');
                assert(d < radix as nat);
            }
            if j == k {
                v = v.mul_add_word(rk, c);
                proof {
                    assert(pow_nat(radix as nat, 0) == 1);
                    assert(pow_nat(radix as nat, 1) == radix * pow_nat(radix as nat, 0));
                    assert(v.val() * (radix as nat) + d == digits_value(
                        t.take(i - start),
                        radix as nat,
                    ) * (radix as nat) + d) by (nonlinear_arith)
                        requires
                            v.val() == digits_value(t.take(i - start), radix as nat),
                ;
                }
                c = d;
                rj = radix as u64;
                j = 1;
            } else {
                proof {
                    let rn = radix as nat;
                    assert(pow_nat(rn, (j + 1) as nat) == rn * pow_nat(rn, j as nat));
                    lemma_pow_nat_le(rn, (j + 1) as nat, k as nat);
                    assert(rj * rn <= rk) by (nonlinear_arith)
                        requires
                            rn * rj == pow_nat(rn, (j + 1) as nat),
                            pow_nat(rn, (j + 1) as nat) <= rk,
                            rn * rj == rj * rn,
                    ;
                    assert(c * rn + d < rj * rn) by (nonlinear_arith)
                        requires
                            c < rj || (j == 0 && c == 0),
                            j == 0 ==> rj == 1,
                            d < rn,
                            rn >= 2,
                            rj >= 1,
                    ;
                    assert((v.val() * rj + c) * rn + d == v.val() * (rj * rn) + (c * rn + d))
                        by (nonlinear_arith);
                }
                c = c * (radix as u64) + d;
                rj = rj * (radix as u64);
                j = j + 1;
            }
        }
        i = i + 1;
        proof {
            assert(t.take(i - start) == t.take((i - 1 - start) + 1));
        }
    }
    proof {
        assert(t.take(len - start) =~= t);
    }
    let out = v.mul_add_word(rj, c);
    Ok(out)
}

/// The digit value of an ASCII byte, 99 when it is no digit.
fn digit_byte_value(b: u8) -> (d: u64)
    ensures
        d == digit_of_byte(b),
{
    if 48 <= b && b <= 57 {
        (b - 48) as u64
    } else if 97 <= b && b <= 122 {
        (b - 87) as u64
    } else if 65 <= b && b <= 90 {
        (b - 55) as u64
    } else {
        99
    }
}

/// A string that is not pure ASCII holds a character that is a digit in no
/// base, so its digit part never validates.
proof fn lemma_non_ascii_rejected(s: Seq<char>, start: int, radix: nat)
    requires
        !vstd::utf8::is_ascii_chars(s),
        0 <= start <= s.len(),
        radix <= 36,
        forall|j: int| 0 <= j < start ==> (s[j] as nat) < 128,
    ensures
        s.skip(start).len() > 0,
        !digits_ok(s.skip(start), radix),
{
    let t = s.skip(start);
    assert(t.len() == s.len() - start);
    if t.len() == 0 || digits_ok(t, radix) {
        assert forall|i: int| 0 <= i < s.len() implies '\0' <= #[trigger] s[i] <= '\u{7f}' by {
            lemma_char_ascii_range(s[i]);
            if i < start {
                assert((s[i] as nat) < 128);
            } else {
                assert(t.len() > 0);
                assert(digits_ok(t, radix));
                assert(t[i - start] == s[i]);
                assert(t[i - start] == '_' || digit_of_char(t[i - start]) < radix);
                if t[i - start] == '_' {
                    assert(('_' as u32) == 95);
                    assert((s[i] as u32) == 95);
                } else {
                    assert(digit_of_char(t[i - start]) < radix);
                    assert((s[i] as u32) < 128);
                }
            }
        }
        assert(vstd::utf8::is_ascii_chars(s));
        assert(false);
    }
}

impl UBig {
    /// Parses a magnitude from text in the given base. An optional leading
    /// `+` is allowed, letters are case-insensitive, and single `_`
    /// separators may stand between digits.
    pub fn from_str_radix(s: &str, radix: u32) -> (res: Result<UBig, Error>)
        ensures
            match res {
                Ok(x) => x.wf() && spec_parse_mag(s@, radix as nat) == Ok::<nat, Error>(x.val()),
                Err(e) => spec_parse_mag(s@, radix as nat) == Err::<nat, Error>(e),
            },
    {
        broadcast use vstd::string::is_ascii_spec_bytes;
        broadcast use vstd::utf8::is_ascii_chars_nat_bound;

        if radix < 2 || radix > 36 {
            return Err(Error::InvalidBase);
        }
        if !s.is_ascii() {
            proof {
                lemma_non_ascii_rejected(s@, 0, radix as nat);
                if s@.len() > 0 && s@[0] == '+' {
                    assert(('+' as nat) < 128);
                    lemma_non_ascii_rejected(s@, 1, radix as nat);
                }
                assert(s@.skip(0) =~= s@);
            }
            return Err(Error::InvalidDigit);
        }
        let len = s.unicode_len();
        let start: usize = if len > 0 && s.get_ascii(0) == 43 {
            proof {
                lemma_ascii_byte_char(s@[0], 43);
                assert(43u8 as char == '+');
            }
            1
        } else {
            proof {
                if s@.len() > 0 {
                    lemma_ascii_byte_char(s@[0], 43);
                    assert(43u8 as char == '+');
                }
                assert(s@.skip(0) =~= s@);
            }
            0
        };
        parse_digits(s, start, radix)
    }

    /// Parses a magnitude from text whose base is declared by its own
    /// prefix: `0b` for 2, `0o` for 8, `0x` for 16, none for 10. Returns the
    /// value together with the detected base.
    pub fn from_str_with_radix_prefix(s: &str) -> (res: Result<(UBig, u32), Error>)
        ensures
            match res {
                Ok(p) => p.0.wf() && spec_parse_prefixed_mag(s@) == Ok::<(nat, nat), Error>(
                    (p.0.val(), p.1 as nat),
                ),
                Err(e) => spec_parse_prefixed_mag(s@) == Err::<(nat, nat), Error>(e),
            },
    {
        broadcast use vstd::string::is_ascii_spec_bytes;
        broadcast use vstd::utf8::is_ascii_chars_nat_bound;

        if !s.is_ascii() {
            proof {
                lemma_prefixed_non_ascii(s@, false);
            }
            return Err(Error::InvalidDigit);
        }
        let len = s.unicode_len();
        let start: usize = if len > 0 && s.get_ascii(0) == 43 {
            proof {
                lemma_ascii_byte_char(s@[0], 43);
                assert(43u8 as char == '+');
            }
            1
        } else {
            proof {
                if s@.len() > 0 {
                    lemma_ascii_byte_char(s@[0], 43);
                    assert(43u8 as char == '+');
                }
                assert(s@.skip(0) =~= s@);
            }
            0
        };
        let ghost t = s@.skip(start as int);
        let pr = detect_prefix(s, start, len);
        proof {
            assert(s@.skip(start + spec_prefix_radix(t).1) =~= t.skip(spec_prefix_radix(t).1));
        }
        match parse_digits(s, pr.1, pr.0) {
            Ok(x) => Ok((x, pr.0)),
            Err(e) => Err(e),
        }
    }
}

impl IBig {
    /// Parses a signed integer from text in the given base: an optional
    /// leading `+` or `-`, then digits as for a magnitude.
    pub fn from_str_radix(s: &str, radix: u32) -> (res: Result<IBig, Error>)
        ensures
            match res {
                Ok(x) => x.wf() && spec_parse_int(s@, radix as nat) == Ok::<int, Error>(x.ival()),
                Err(e) => spec_parse_int(s@, radix as nat) == Err::<int, Error>(e),
            },
    {
        broadcast use vstd::string::is_ascii_spec_bytes;
        broadcast use vstd::utf8::is_ascii_chars_nat_bound;

        if radix < 2 || radix > 36 {
            return Err(Error::InvalidBase);
        }
        if !s.is_ascii() {
            proof {
                lemma_non_ascii_rejected(s@, 0, radix as nat);
                if s@.len() > 0 && (s@[0] == '+' || s@[0] == '-') {
                    assert(('+' as nat) < 128 && ('-' as nat) < 128);
                    lemma_non_ascii_rejected(s@, 1, radix as nat);
                }
                assert(s@.skip(0) =~= s@);
            }
            return Err(Error::InvalidDigit);
        }
        let len = s.unicode_len();
        let mut neg: bool = false;
        let mut start: usize = 0;
        if len > 0 {
            let b0 = s.get_ascii(0);
            proof {
                lemma_ascii_byte_char(s@[0], 43);
                lemma_ascii_byte_char(s@[0], 45);
                assert(43u8 as char == '+' && 45u8 as char == '-');
            }
            if b0 == 43 {
                start = 1;
            } else if b0 == 45 {
                neg = true;
                start = 1;
            }
        }
        proof {
            if start == 0 {
                assert(s@.skip(0) =~= s@);
            }
        }
        match parse_digits(s, start, radix) {
            Ok(mag) => {
                let sign = if neg {
                    Sign::Negative
                } else {
                    Sign::Positive
                };
                Ok(IBig::from_sign_mag(sign, mag))
            },
            Err(e) => Err(e),
        }
    }

    /// Parses a signed integer from text whose base is declared by its own
    /// prefix, returning the value together with the detected base.
    pub fn from_str_with_radix_prefix(s: &str) -> (res: Result<(IBig, u32), Error>)
        ensures
            match res {
                Ok(p) => p.0.wf() && spec_parse_prefixed_int(s@) == Ok::<(int, nat), Error>(
                    (p.0.ival(), p.1 as nat),
                ),
                Err(e) => spec_parse_prefixed_int(s@) == Err::<(int, nat), Error>(e),
            },
    {
        broadcast use vstd::string::is_ascii_spec_bytes;
        broadcast use vstd::utf8::is_ascii_chars_nat_bound;

        if !s.is_ascii() {
            proof {
                lemma_prefixed_non_ascii(s@, true);
            }
            return Err(Error::InvalidDigit);
        }
        let len = s.unicode_len();
        let mut neg: bool = false;
        let mut start: usize = 0;
        if len > 0 {
            let b0 = s.get_ascii(0);
            proof {
                lemma_ascii_byte_char(s@[0], 43);
                lemma_ascii_byte_char(s@[0], 45);
                assert(43u8 as char == '+' && 45u8 as char == '-');
            }
            if b0 == 43 {
                start = 1;
            } else if b0 == 45 {
                neg = true;
                start = 1;
            }
        }
        proof {
            if start == 0 {
                assert(s@.skip(0) =~= s@);
            }
        }
        let ghost t = s@.skip(start as int);
        let pr = detect_prefix(s, start, len);
        proof {
            assert(s@.skip(start + spec_prefix_radix(t).1) =~= t.skip(spec_prefix_radix(t).1));
        }
        match parse_digits(s, pr.1, pr.0) {
            Ok(mag) => {
                let sign = if neg {
                    Sign::Negative
                } else {
                    Sign::Positive
                };
                Ok((IBig::from_sign_mag(sign, mag), pr.0))
            },
            Err(e) => Err(e),
        }
    }
}

/// Reads the base named by a leading `0b`, `0o` or `0x` at position
/// `start`, returning the base and the position where digits begin.
fn detect_prefix(s: &str, start: usize, len: usize) -> (res: (u32, usize))
    requires
        s.is_ascii(),
        start as int <= s@.len(),
        len == s@.len(),
    ensures
        ({
            let rc = spec_prefix_radix(s@.skip(start as int));
            res.0 == rc.0 && res.1 == start + rc.1 && res.1 <= s@.len() && 2 <= res.0 <= 36
        }),
{
    broadcast use vstd::string::is_ascii_spec_bytes;
    broadcast use vstd::utf8::is_ascii_chars_nat_bound;

    let ghost t = s@.skip(start as int);
    if len - start >= 2 {
        let b0 = s.get_ascii(start);
        let b1 = s.get_ascii(start + 1);
        proof {
            assert(t[0] == s@[start as int] && t[1] == s@[start + 1]);
            lemma_ascii_byte_char(s@[start as int], 48);
            lemma_ascii_byte_char(s@[start + 1], 98);
            lemma_ascii_byte_char(s@[start + 1], 111);
            lemma_ascii_byte_char(s@[start + 1], 120);
            assert(48u8 as char == '0' && 98u8 as char == 'b' && 111u8 as char == 'o' && 120u8
                as char == 'x');
        }
        if b0 == 48 {
            if b1 == 98 {
                return (2, start + 2);
            }
            if b1 == 111 {
                return (8, start + 2);
            }
            if b1 == 120 {
                return (16, start + 2);
            }
        }
        (10, start)
    } else {
        (10, start)
    }
}

/// A character equals an ASCII byte's character exactly when its byte
/// equals that byte.
proof fn lemma_ascii_byte_char(c: char, b: u8)
    requires
        (c as nat) < 128,
        b < 128,
    ensures
        (c as u8) == b <==> c == (b as char),
{
    vstd::utf8::char_u32_cast(c, c as u32);
}

/// Without full ASCII text, prefixed parsing always reports an invalid
/// digit: the sign and prefix characters are ASCII, so the offending
/// character sits in the digit part.
proof fn lemma_prefixed_non_ascii(s: Seq<char>, signed: bool)
    requires
        !vstd::utf8::is_ascii_chars(s),
    ensures
        !signed ==> spec_parse_prefixed_mag(s) == Err::<(nat, nat), Error>(Error::InvalidDigit),
        signed ==> spec_parse_prefixed_int(s) == Err::<(int, nat), Error>(Error::InvalidDigit),
{
    let start: int = if s.len() > 0 && (s[0] == '+' || (signed && s[0] == '-')) {
        1
    } else {
        0
    };
    let t = s.skip(start);
    let rc = spec_prefix_radix(t);
    assert(s.skip(start + rc.1) =~= t.skip(rc.1));
    assert(('+' as nat) < 128 && ('-' as nat) < 128);
    assert(('0' as nat) < 128 && ('b' as nat) < 128 && ('o' as nat) < 128 && ('x' as nat) < 128);
    assert forall|j: int| 0 <= j < start + rc.1 implies (s[j] as nat) < 128 by {
        if j >= start {
            assert(t[j - start] == s[j]);
            assert(rc.1 == 2 && t[0] == '0' && (t[1] == 'b' || t[1] == 'o' || t[1] == 'x'));
        }
    }
    lemma_non_ascii_rejected(s, start + rc.1, rc.0);
}

} // verus!
