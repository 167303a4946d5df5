//! Rendering limb storage back into text: digit strings in any base 2..=36,
//! produced by repeated chunked division by the largest single-limb power of
//! the base, peeling off whole groups of digits at a time.
use vstd::prelude::*;

use crate::mul::pow_nat;
use crate::radix::{digit_of_char, digits_ok, digits_value, radix_chunk};
use crate::ubig::UBig;
use vstd::arithmetic::div_mod::{
    lemma_div_decreases, lemma_fundamental_div_mod, lemma_fundamental_div_mod_converse,
};

verus! {

/// The ASCII byte rendering a digit value, lowercase or uppercase letters
/// for values 10 and up.
pub open spec fn fmt_digit_byte(d: nat, upper: bool) -> u8 {
    if d < 10 {
        (48 + d) as u8
    } else if upper {
        (55 + d) as u8
    } else {
        (87 + d) as u8
    }
}

/// The digit expansion of a positive number, most significant digit first;
/// empty for zero.
pub open spec fn fmt_digits_rec(n: nat, radix: nat, upper: bool) -> Seq<u8>
    decreases n,
    when radix >= 2
    via fmt_digits_rec_dec
{
    if n == 0 {
        Seq::empty()
    } else {
        fmt_digits_rec(n / radix, radix, upper).push(fmt_digit_byte(n % radix, upper))
    }
}

#[via_fn]
proof fn fmt_digits_rec_dec(n: nat, radix: nat, upper: bool) {
    if radix >= 2 && n > 0 {
        lemma_div_decreases(n as int, radix as int);
    }
}

/// The digit string of a magnitude: its expansion, or the single digit `0`.
pub open spec fn spec_fmt_mag(n: nat, radix: nat, upper: bool) -> Seq<u8> {
    if n == 0 {
        seq![48u8]
    } else {
        fmt_digits_rec(n, radix, upper)
    }
}

/// The characters an ASCII byte sequence spells.
pub open spec fn chars_of_bytes(bs: Seq<u8>) -> Seq<char> {
    bs.map_values(|b: u8| b as char)
}

/// Every byte of a digit expansion is an ASCII digit or letter.
pub proof fn lemma_fmt_digits_ascii(n: nat, radix: nat, upper: bool)
    requires
        2 <= radix <= 36,
    ensures
        forall|i: int|
            0 <= i < fmt_digits_rec(n, radix, upper).len() ==> 48 <= #[trigger] fmt_digits_rec(
                n,
                radix,
                upper,
            )[i] < 128,
    decreases n,
{
    if n > 0 {
        lemma_div_decreases(n as int, radix as int);
        lemma_fmt_digits_ascii(n / radix, radix, upper);
        let s = fmt_digits_rec(n, radix, upper);
        let p = fmt_digits_rec(n / radix, radix, upper);
        assert forall|i: int| 0 <= i < s.len() implies 48 <= #[trigger] s[i] < 128 by {
            if i < p.len() {
                assert(s[i] == p[i]);
            } else {
                assert(s[i] == fmt_digit_byte(n % radix, upper));
            }
        }
    }
}

/// The digit bytes of a magnitude, most significant first. Chunked: one
/// long division peels a whole limb's worth of digits, then single-word
/// arithmetic splits the chunk.
fn mag_digits(x: &UBig, radix: u32, upper: bool) -> (out: Vec<u8>)
    requires
        x.wf(),
        2 <= radix <= 36,
    ensures
        out@ == spec_fmt_mag(x.val(), radix as nat, upper),
{
    let rn: u64 = radix as u64;
    if x.is_zero() {
        let mut out: Vec<u8> = Vec::new();
        out.push(48);
        proof {
            assert(out@ =~= spec_fmt_mag(0, radix as nat, upper));
        }
        return out;
    }
    let chunk = radix_chunk(radix);
    let k = chunk.0;
    let rk = chunk.1;
    let mut rev: Vec<u8> = Vec::new();
    let mut cur = x.duplicate();
    proof {
        assert(fmt_digits_rec(x.val(), radix as nat, upper) =~= fmt_digits_rec(
            x.val(),
            radix as nat,
            upper,
        ) + rev@.reverse());
    }
    while !cur.is_zero()
        invariant
            x.wf(),
            cur.wf(),
            2 <= radix <= 36,
            rn == radix,
            k >= 1,
            rk == pow_nat(radix as nat, k as nat),
            rk >= radix,
            fmt_digits_rec(x.val(), radix as nat, upper) == fmt_digits_rec(
                cur.val(),
                radix as nat,
                upper,
            ) + rev@.reverse(),
        decreases cur.val(),
    {
        let ghost cur0 = cur.val();
        let qr = cur.div_mod_word(rk);
        let q = qr.0;
        let mut c: u64 = qr.1;
        proof {
            lemma_div_decreases(cur0 as int, rk as int);
            lemma_fundamental_div_mod(cur0 as int, rk as int);
            assert(rk * q.val() == q.val() * rk) by (nonlinear_arith);
            assert(q.val() * rk + c == cur0);
        }
        if q.is_zero() {
            // the most significant group: no leading zero padding
            proof {
                assert(q.val() * rk == 0) by (nonlinear_arith)
                    requires
                        q.val() == 0,
                ;
                assert(cur0 == c);
            }
            while c > 0
                invariant
                    2 <= radix <= 36,
                    rn == radix,
                    fmt_digits_rec(x.val(), radix as nat, upper) == fmt_digits_rec(
                        c as nat,
                        radix as nat,
                        upper,
                    ) + rev@.reverse(),
                decreases c,
            {
                let d: u64 = c % rn;
                let ghost rev0 = rev@;
                rev.push(digit_byte(d, upper));
                proof {
                    lemma_reverse_push(rev0, fmt_digit_byte(d as nat, upper));
                    let cc = c as nat;
                    assert(fmt_digits_rec(cc, radix as nat, upper) == fmt_digits_rec(
                        cc / (radix as nat),
                        radix as nat,
                        upper,
                    ).push(fmt_digit_byte(cc % (radix as nat), upper)));
                    assert(fmt_digits_rec(cc, radix as nat, upper) + rev0.reverse()
                        =~= fmt_digits_rec(cc / (radix as nat), radix as nat, upper)
                        + rev@.reverse());
                }
                c = c / rn;
            }
            proof {
                assert(fmt_digits_rec(0, radix as nat, upper) =~= Seq::<u8>::empty());
            }
            cur = q;
        } else {
            // a full group: exactly `k` digits, zero-padded at the top
            let mut j: usize = 0;
            let ghost qv = q.val();
            proof {
                assert(pow_nat(radix as nat, (k - j) as nat) == rk);
                assert(qv * rk + c == cur0);
            }
            while j < k
                invariant
                    2 <= radix <= 36,
                    rn == radix,
                    j <= k,
                    qv > 0,
                    rk == pow_nat(radix as nat, k as nat),
                    c < pow_nat(radix as nat, (k - j) as nat),
                    fmt_digits_rec(x.val(), radix as nat, upper) == fmt_digits_rec(
                        (qv * pow_nat(radix as nat, (k - j) as nat) + c) as nat,
                        radix as nat,
                        upper,
                    ) + rev@.reverse(),
                decreases k - j,
            {
                let d: u64 = c % rn;
                let ghost rev0 = rev@;
                let ghost rnn = radix as nat;
                let ghost pj = pow_nat(rnn, (k - j - 1) as nat);
                let ghost vj = (qv * pow_nat(rnn, (k - j) as nat) + c) as nat;
                let ghost vj1 = (qv * pj + (c as nat) / rnn) as nat;
                rev.push(digit_byte(d, upper));
                proof {
                    lemma_reverse_push(rev0, fmt_digit_byte(d as nat, upper));
                    assert(pow_nat(rnn, (k - j) as nat) == rnn * pj);
                    lemma_fundamental_div_mod(c as int, rnn as int);
                    assert(vj == vj1 * rnn + (c as nat) % rnn) by (nonlinear_arith)
                        requires
                            vj == qv * (rnn * pj) + c,
                            vj1 == qv * pj + (c as nat) / rnn,
                            c == ((c as nat) / rnn) * rnn + (c as nat) % rnn,
                    ;
                    assert(vj > 0) by (nonlinear_arith)
                        requires
                            vj == qv * (rnn * pj) + c,
                            qv >= 1,
                            rnn * pj >= 1,
                    ;
                    lemma_fundamental_div_mod_converse(
                        vj as int,
                        rnn as int,
                        vj1 as int,
                        ((c as nat) % rnn) as int,
                    );
                    assert(fmt_digits_rec(vj, rnn, upper) == fmt_digits_rec(vj1, rnn, upper).push(
                        fmt_digit_byte(vj % rnn, upper),
                    ));
                    assert(fmt_digits_rec(vj, rnn, upper) + rev0.reverse() =~= fmt_digits_rec(
                        vj1,
                        rnn,
                        upper,
                    ) + rev@.reverse());
                    assert((c as nat) / rnn < pj) by (nonlinear_arith)
                        requires
                            c < rnn * pj,
                            c == ((c as nat) / rnn) * rnn + (c as nat) % rnn,
                            (c as nat) % rnn >= 0,
                            rnn >= 2,
                            pj >= 0,
                    ;
                }
                c = c / rn;
                j = j + 1;
            }
            proof {
                assert(pow_nat(radix as nat, 0) == 1);
                assert(c == 0);
                assert(qv * 1 + 0 == qv);
            }
            cur = q;
        }
    }
    proof {
        assert(fmt_digits_rec(0, radix as nat, upper) =~= Seq::<u8>::empty());
        assert(fmt_digits_rec(x.val(), radix as nat, upper) =~= rev@.reverse());
    }
    // the digits were produced least significant first
    let n = rev.len();
    let mut out: Vec<u8> = Vec::new();
    let mut i: usize = 0;
    while i < n
        invariant
            i <= n,
            n == rev@.len(),
            out@.len() == i,
            forall|m: int| 0 <= m < i ==> out@[m] == rev@[n - 1 - m],
        decreases n - i,
    {
        out.push(rev[n - 1 - i]);
        i = i + 1;
    }
    proof {
        assert(out@ =~= rev@.reverse());
        assert(x.val() > 0);
    }
    out
}

/// A digit byte decodes back to the digit value it was made from, and is
/// neither a separator nor a sign.
proof fn lemma_digit_byte_round(d: nat, upper: bool)
    requires
        d < 36,
    ensures
        crate::radix::digit_of_byte(fmt_digit_byte(d, upper)) == d,
        fmt_digit_byte(d, upper) != 95,
        48 <= fmt_digit_byte(d, upper) < 128,
{
}

/// An ASCII byte turned into a character reads as the same digit.
proof fn lemma_char_of_byte(b: u8)
    requires
        b < 128,
    ensures
        digit_of_char(b as char) == crate::radix::digit_of_byte(b),
        (b as char) == '_' <==> b == 95,
        (b as char) == '+' <==> b == 43,
{
    assert(((b as char) as u32) == b);
}

/// Every byte of a digit expansion is a digit of the base.
proof fn lemma_fmt_digits_are_digits(n: nat, radix: nat, upper: bool)
    requires
        2 <= radix <= 36,
    ensures
        forall|i: int|
            0 <= i < fmt_digits_rec(n, radix, upper).len()
                ==> crate::radix::digit_of_byte(#[trigger] fmt_digits_rec(n, radix, upper)[i])
                < radix,
    decreases n,
{
    if n > 0 {
        lemma_div_decreases(n as int, radix as int);
        lemma_fmt_digits_are_digits(n / radix, radix, upper);
        let s = fmt_digits_rec(n, radix, upper);
        let p = fmt_digits_rec(n / radix, radix, upper);
        assert forall|i: int| 0 <= i < s.len() implies crate::radix::digit_of_byte(
            #[trigger] s[i],
        ) < radix by {
            if i < p.len() {
                assert(s[i] == p[i]);
            } else {
                assert(s[i] == fmt_digit_byte(n % radix, upper));
                lemma_digit_byte_round(n % radix, upper);
            }
        }
    }
}

/// Reading the digit expansion back, left to right, recovers the number.
proof fn lemma_value_of_fmt(n: nat, radix: nat, upper: bool)
    requires
        2 <= radix <= 36,
    ensures
        digits_value(chars_of_bytes(fmt_digits_rec(n, radix, upper)), radix) == n,
    decreases n,
{
    let cs = chars_of_bytes(fmt_digits_rec(n, radix, upper));
    if n == 0 {
        assert(cs =~= Seq::<char>::empty());
    } else {
        lemma_div_decreases(n as int, radix as int);
        lemma_value_of_fmt(n / radix, radix, upper);
        let b = fmt_digit_byte(n % radix, upper);
        let prev = chars_of_bytes(fmt_digits_rec(n / radix, radix, upper));
        assert(cs =~= prev.push(b as char));
        lemma_digit_byte_round(n % radix, upper);
        lemma_char_of_byte(b);
        assert(cs[cs.len() - 1] == b as char);
        assert(cs.drop_last() =~= prev);
        assert(digits_value(cs, radix) == digits_value(prev, radix) * radix + digit_of_char(
            b as char,
        ));
        lemma_fundamental_div_mod(n as int, radix as int);
        assert((n / radix) * radix == radix * (n / radix)) by (nonlinear_arith);
    }
}

/// Round trip: parsing a formatted magnitude in the same base gives back
/// exactly the value that was formatted, for every magnitude and every base
/// 2..=36, in either letter case.
pub proof fn lemma_radix_round_trip(n: nat, radix: nat, upper: bool)
    requires
        2 <= radix <= 36,
    ensures
        crate::radix::spec_parse_mag(chars_of_bytes(spec_fmt_mag(n, radix, upper)), radix)
            == Ok::<nat, crate::error::Error>(n),
{
    let bs = spec_fmt_mag(n, radix, upper);
    let cs = chars_of_bytes(bs);
    lemma_mag_bytes_ascii(n, radix, upper);
    lemma_fmt_digits_are_digits(n, radix, upper);
    if n == 0 {
        assert(bs =~= seq![48u8]);
        assert(cs.len() == 1 && cs[0] == 48u8 as char);
        lemma_char_of_byte(48);
        assert(digit_of_char(cs[0]) == 0);
        assert(cs[0] != '+');
        assert(digits_ok(cs, radix));
        assert(digits_value(cs, radix) == digits_value(cs.drop_last(), radix) * radix
            + digit_of_char(cs[0]));
        assert(cs.drop_last() =~= Seq::<char>::empty());
        assert(0 * radix == 0) by (nonlinear_arith);
    } else {
        assert(bs == fmt_digits_rec(n, radix, upper));
        assert(bs.len() > 0);
        assert forall|i: int| 0 <= i < cs.len() implies (digit_of_char(#[trigger] cs[i]) < radix
            && cs[i] != '_' && cs[i] != '+') by {
            assert(cs[i] == bs[i] as char);
            assert(48 <= bs[i] < 128);
            assert(crate::radix::digit_of_byte(bs[i]) < radix);
            lemma_char_of_byte(bs[i]);
        }
        assert(digits_ok(cs, radix));
        assert(cs[0] != '+');
        lemma_value_of_fmt(n, radix, upper);
    }
}

/// Round trip through the default text form: parsing a decimal rendering
/// in base ten gives back the value rendered.
pub proof fn lemma_decimal_round_trip(n: nat)
    ensures
        crate::radix::spec_parse_mag(chars_of_bytes(spec_fmt_mag(n, 10, false)), 10)
            == Ok::<nat, crate::error::Error>(n),
{
    lemma_radix_round_trip(n, 10, false);
}

/// Where padding goes when a rendered number is narrower than the
/// requested width.
#[derive(Clone, Copy, Debug, PartialEq, Eq, Structural)]
pub enum Align {
    Left,
    Right,
    Center,
}

/// A formatting request: base, letter case, sign display, prefix display,
/// and the text-alignment options applied after digit generation.
#[derive(Clone, Copy, Debug)]
pub struct FmtOptions {
    /// The base, 2..=36.
    pub radix: u32,
    /// Uppercase letters for digit values 10 and up.
    pub uppercase: bool,
    /// Write `+` in front of non-negative values.
    pub show_plus: bool,
    /// Write the base prefix `0b`, `0o` or `0x`; defined only for bases
    /// 2, 8 and 16 and ignored elsewhere.
    pub prefix: bool,
    /// Pad the result to at least this many characters.
    pub width: usize,
    /// The ASCII fill character used for alignment padding.
    pub fill: u8,
    /// Where alignment padding goes.
    pub align: Align,
    /// Numeric zero-padding: zeros between sign/prefix and the digits,
    /// instead of fill characters outside them.
    pub zero_pad: bool,
}

impl FmtOptions {
    /// The plain request: decimal, lowercase, no sign, no prefix, no
    /// padding.
    pub fn new() -> (o: FmtOptions)
        ensures
            o.radix == 10 && !o.uppercase && !o.show_plus && !o.prefix && o.width == 0 && o.fill
                == 32 && o.align == Align::Right && !o.zero_pad,
    {
        FmtOptions {
            radix: 10,
            uppercase: false,
            show_plus: false,
            prefix: false,
            width: 0,
            fill: 32,
            align: Align::Right,
            zero_pad: false,
        }
    }
}

/// The sign marker: `-`, or `+` when positive display is requested.
pub open spec fn spec_sign_bytes(neg: bool, plus: bool) -> Seq<u8> {
    if neg {
        seq![45u8]
    } else if plus {
        seq![43u8]
    } else {
        Seq::empty()
    }
}

/// The base prefix bytes the request asks for.
pub open spec fn spec_prefix_bytes(o: FmtOptions) -> Seq<u8> {
    if o.prefix && o.radix == 2 {
        seq![48u8, 98u8]
    } else if o.prefix && o.radix == 8 {
        seq![48u8, 111u8]
    } else if o.prefix && o.radix == 16 {
        seq![48u8, 120u8]
    } else {
        Seq::empty()
    }
}

/// `n` copies of one fill byte.
pub open spec fn fill_bytes(b: u8, n: nat) -> Seq<u8> {
    Seq::new(n, |i: int| b)
}

/// Assembling sign, prefix and digits into the final text: zero-padding
/// keeps sign and prefix adjacent to the digits; fill-character padding
/// keeps the whole rendered number together and distributes fill around it.
pub open spec fn spec_render(sign: Seq<u8>, pre: Seq<u8>, digits: Seq<u8>, o: FmtOptions) -> Seq<
    u8,
> {
    let core = sign + pre + digits;
    if core.len() >= o.width {
        core
    } else if o.zero_pad {
        sign + pre + fill_bytes(48, (o.width - core.len()) as nat) + digits
    } else {
        let pad = (o.width - core.len()) as nat;
        match o.align {
            Align::Left => core + fill_bytes(o.fill, pad),
            Align::Right => fill_bytes(o.fill, pad) + core,
            Align::Center => fill_bytes(o.fill, pad / 2) + core + fill_bytes(
                o.fill,
                (pad - pad / 2) as nat,
            ),
        }
    }
}

/// What formatting a magnitude must produce.
pub open spec fn spec_format_mag(n: nat, o: FmtOptions) -> Seq<u8> {
    spec_render(
        spec_sign_bytes(false, o.show_plus),
        spec_prefix_bytes(o),
        spec_fmt_mag(n, o.radix as nat, o.uppercase),
        o,
    )
}

/// What formatting a signed integer must produce: the sign of the value,
/// then its magnitude.
pub open spec fn spec_format_int(v: int, o: FmtOptions) -> Seq<u8> {
    let m = if v < 0 {
        (-v) as nat
    } else {
        v as nat
    };
    spec_render(
        spec_sign_bytes(v < 0, o.show_plus),
        spec_prefix_bytes(o),
        spec_fmt_mag(m, o.radix as nat, o.uppercase),
        o,
    )
}

/// Appends every byte of `src`.
fn push_all(dst: &mut Vec<u8>, src: &Vec<u8>)
    ensures
        final(dst)@ == old(dst)@ + src@,
{
    let mut i: usize = 0;
    while i < src.len()
        invariant
            i <= src@.len(),
            dst@ == old(dst)@ + src@.take(i as int),
        decreases src@.len() - i,
    {
        proof {
            assert(old(dst)@ + src@.take(i + 1) =~= (old(dst)@ + src@.take(i as int)).push(
                src@[i as int],
            ));
        }
        dst.push(src[i]);
        i = i + 1;
    }
    proof {
        assert(src@.take(src@.len() as int) =~= src@);
    }
}

/// Appends `n` copies of a fill byte.
fn push_fill(dst: &mut Vec<u8>, b: u8, n: usize)
    ensures
        final(dst)@ == old(dst)@ + fill_bytes(b, n as nat),
{
    let mut i: usize = 0;
    while i < n
        invariant
            i <= n,
            dst@ == old(dst)@ + fill_bytes(b, i as nat),
        decreases n - i,
    {
        proof {
            assert(old(dst)@ + fill_bytes(b, (i + 1) as nat) =~= (old(dst)@ + fill_bytes(
                b,
                i as nat,
            )).push(b));
        }
        dst.push(b);
        i = i + 1;
    }
}

/// Builds the rendered byte text from its three parts.
fn render_parts(sign: &Vec<u8>, pre: &Vec<u8>, digits: &Vec<u8>, o: &FmtOptions) -> (out: Vec<u8>)
    ensures
        out@ == spec_render(sign@, pre@, digits@, *o),
{
    let core_len: u128 = sign.len() as u128 + pre.len() as u128 + digits.len() as u128;
    let mut out: Vec<u8> = Vec::new();
    let ghost core = sign@ + pre@ + digits@;
    if core_len >= o.width as u128 {
        push_all(&mut out, sign);
        push_all(&mut out, pre);
        push_all(&mut out, digits);
        proof {
            assert(out@ =~= core);
        }
    } else {
        let pad: usize = (o.width as u128 - core_len) as usize;
        if o.zero_pad {
            push_all(&mut out, sign);
            push_all(&mut out, pre);
            push_fill(&mut out, 48, pad);
            push_all(&mut out, digits);
            proof {
                assert(out@ =~= sign@ + pre@ + fill_bytes(48, pad as nat) + digits@);
            }
        } else {
            match o.align {
                Align::Left => {
                    push_all(&mut out, sign);
                    push_all(&mut out, pre);
                    push_all(&mut out, digits);
                    push_fill(&mut out, o.fill, pad);
                    proof {
                        assert(out@ =~= core + fill_bytes(o.fill, pad as nat));
                    }
                },
                Align::Right => {
                    push_fill(&mut out, o.fill, pad);
                    push_all(&mut out, sign);
                    push_all(&mut out, pre);
                    push_all(&mut out, digits);
                    proof {
                        assert(out@ =~= fill_bytes(o.fill, pad as nat) + core);
                    }
                },
                Align::Center => {
                    push_fill(&mut out, o.fill, pad / 2);
                    push_all(&mut out, sign);
                    push_all(&mut out, pre);
                    push_all(&mut out, digits);
                    push_fill(&mut out, o.fill, pad - pad / 2);
                    proof {
                        assert(out@ =~= fill_bytes(o.fill, (pad / 2) as nat) + core + fill_bytes(
                            o.fill,
                            (pad - pad / 2) as nat,
                        ));
                    }
                },
            }
        }
    }
    out
}

/// Turns ASCII bytes into the string spelling exactly those characters.
///
/// Relies on `String::from_utf8`: a sequence of bytes below 128 is valid
/// UTF-8 and decodes to one character per byte, each with the byte's own
/// code point.
#[verifier::external_body]
fn ascii_to_string(v: Vec<u8>) -> (r: String)
    requires
        forall|i: int| 0 <= i < v@.len() ==> v@[i] < 128,
    ensures
        r@ == chars_of_bytes(v@),
{
    String::from_utf8(v).unwrap_or_default()
}

/// All bytes a render can produce are ASCII.
proof fn lemma_render_ascii(sign: Seq<u8>, pre: Seq<u8>, digits: Seq<u8>, o: FmtOptions)
    requires
        o.fill < 128,
        forall|i: int| 0 <= i < sign.len() ==> sign[i] < 128,
        forall|i: int| 0 <= i < pre.len() ==> pre[i] < 128,
        forall|i: int| 0 <= i < digits.len() ==> digits[i] < 128,
    ensures
        forall|i: int|
            0 <= i < spec_render(sign, pre, digits, o).len() ==> #[trigger] spec_render(
                sign,
                pre,
                digits,
                o,
            )[i] < 128,
{
    let core = sign + pre + digits;
    assert(forall|i: int| 0 <= i < core.len() ==> core[i] < 128);
    assert(forall|b: u8, n: nat, i: int| 0 <= i < n ==> #[trigger] fill_bytes(b, n)[i] == b);
}

/// The digit bytes of a magnitude are ASCII.
proof fn lemma_mag_bytes_ascii(n: nat, radix: nat, upper: bool)
    requires
        2 <= radix <= 36,
    ensures
        forall|i: int|
            0 <= i < spec_fmt_mag(n, radix, upper).len() ==> #[trigger] spec_fmt_mag(
                n,
                radix,
                upper,
            )[i] < 128,
{
    lemma_fmt_digits_ascii(n, radix, upper);
}

/// Reversal after a push puts the new element in front.
proof fn lemma_reverse_push(s: Seq<u8>, b: u8)
    ensures
        s.push(b).reverse() =~= seq![b] + s.reverse(),
{
}

/// The ASCII byte for one digit value.
fn digit_byte(d: u64, upper: bool) -> (b: u8)
    requires
        d < 36,
    ensures
        b == fmt_digit_byte(d as nat, upper),
{
    if d < 10 {
        48 + d as u8
    } else if upper {
        55 + d as u8
    } else {
        87 + d as u8
    }
}

/// Renders one magnitude with the full set of options, as bytes.
fn format_mag_bytes(x: &UBig, neg: bool, o: &FmtOptions) -> (out: Vec<u8>)
    requires
        x.wf(),
        2 <= o.radix <= 36,
        !(neg && x.val() == 0),
    ensures
        out@ == spec_render(
            spec_sign_bytes(neg, o.show_plus),
            spec_prefix_bytes(*o),
            spec_fmt_mag(x.val(), o.radix as nat, o.uppercase),
            *o,
        ),
{
    let digits = mag_digits(x, o.radix, o.uppercase);
    let mut sign: Vec<u8> = Vec::new();
    if neg {
        sign.push(45);
    } else if o.show_plus {
        sign.push(43);
    }
    let mut pre: Vec<u8> = Vec::new();
    if o.prefix && (o.radix == 2 || o.radix == 8 || o.radix == 16) {
        pre.push(48);
        if o.radix == 2 {
            pre.push(98);
        } else if o.radix == 8 {
            pre.push(111);
        } else {
            pre.push(120);
        }
    }
    proof {
        assert(sign@ =~= spec_sign_bytes(neg, o.show_plus));
        assert(pre@ =~= spec_prefix_bytes(*o));
    }
    render_parts(&sign, &pre, &digits, o)
}

/// The rendered bytes of a magnitude are ASCII throughout.
proof fn lemma_format_ascii(n: nat, neg: bool, o: FmtOptions)
    requires
        2 <= o.radix <= 36,
        o.fill < 128,
    ensures
        ({
            let r = spec_render(
                spec_sign_bytes(neg, o.show_plus),
                spec_prefix_bytes(o),
                spec_fmt_mag(n, o.radix as nat, o.uppercase),
                o,
            );
            forall|i: int| 0 <= i < r.len() ==> #[trigger] r[i] < 128
        }),
{
    lemma_mag_bytes_ascii(n, o.radix as nat, o.uppercase);
    lemma_render_ascii(
        spec_sign_bytes(neg, o.show_plus),
        spec_prefix_bytes(o),
        spec_fmt_mag(n, o.radix as nat, o.uppercase),
        o,
    );
}

impl UBig {
    /// Renders this magnitude under a full formatting request. A base
    /// outside 2..=36 is a configuration error.
    pub fn format_with(&self, o: &FmtOptions) -> (res: Result<String, crate::error::Error>)
        requires
            self.wf(),
            o.fill < 128,
        ensures
            match res {
                Ok(s) => 2 <= o.radix <= 36 && s@ == chars_of_bytes(
                    spec_format_mag(self.val(), *o),
                ),
                Err(e) => !(2 <= o.radix <= 36) && e == crate::error::Error::InvalidBase,
            },
    {
        if o.radix < 2 || o.radix > 36 {
            return Err(crate::error::Error::InvalidBase);
        }
        let bytes = format_mag_bytes(self, false, o);
        proof {
            lemma_format_ascii(self.val(), false, *o);
        }
        Ok(ascii_to_string(bytes))
    }

    /// The canonical decimal text of this magnitude.
    pub fn to_string(&self) -> (r: String)
        requires
            self.wf(),
        ensures
            r@ == chars_of_bytes(spec_fmt_mag(self.val(), 10, false)),
    {
        let bytes = mag_digits(self, 10, false);
        proof {
            lemma_mag_bytes_ascii(self.val(), 10, false);
        }
        ascii_to_string(bytes)
    }

    /// The plain digit text of this magnitude in the given base, lowercase.
    pub fn to_radix_string(&self, radix: u32) -> (res: Result<String, crate::error::Error>)
        requires
            self.wf(),
        ensures
            match res {
                Ok(s) => 2 <= radix <= 36 && s@ == chars_of_bytes(
                    spec_fmt_mag(self.val(), radix as nat, false),
                ),
                Err(e) => !(2 <= radix <= 36) && e == crate::error::Error::InvalidBase,
            },
    {
        if radix < 2 || radix > 36 {
            return Err(crate::error::Error::InvalidBase);
        }
        let bytes = mag_digits(self, radix, false);
        proof {
            lemma_mag_bytes_ascii(self.val(), radix as nat, false);
        }
        Ok(ascii_to_string(bytes))
    }
}

/// The debug text of a magnitude: the full decimal expansion, or only its
/// first and last nineteen digits joined by an ellipsis when it runs past
/// thirty-eight; the alternate form appends the exact decimal digit count
/// and the exact bit length.
pub open spec fn spec_debug_mag(n: nat, alt: bool) -> Seq<u8> {
    let dec = spec_fmt_mag(n, 10, false);
    let count: nat = if n == 0 {
        0
    } else {
        dec.len()
    };
    let shown = if dec.len() > 38 {
        dec.take(19) + seq![46u8, 46u8] + dec.skip(dec.len() - 19)
    } else {
        dec
    };
    if alt {
        shown + seq![32u8, 40u8] + spec_fmt_mag(count, 10, false) + seq![
            32u8,
            100u8,
            105u8,
            103u8,
            105u8,
            116u8,
            115u8,
            44u8,
            32u8,
        ] + spec_fmt_mag(crate::div::bit_len_nat(n), 10, false) + seq![
            32u8,
            98u8,
            105u8,
            116u8,
            115u8,
            41u8,
        ]
    } else {
        shown
    }
}

/// Pushes a clipped range of `src`.
fn push_range(dst: &mut Vec<u8>, src: &Vec<u8>, from: usize, to: usize)
    requires
        from <= to <= src@.len(),
    ensures
        final(dst)@ == old(dst)@ + src@.subrange(from as int, to as int),
{
    let mut i: usize = from;
    while i < to
        invariant
            from <= i <= to <= src@.len(),
            dst@ == old(dst)@ + src@.subrange(from as int, i as int),
        decreases to - i,
    {
        proof {
            assert(old(dst)@ + src@.subrange(from as int, i + 1) =~= (old(dst)@ + src@.subrange(
                from as int,
                i as int,
            )).push(src@[i as int]));
        }
        dst.push(src[i]);
        i = i + 1;
    }
}

/// The debug bytes of a magnitude.
#[verifier::rlimit(60)]
fn debug_mag_bytes(x: &UBig, alt: bool) -> (out: Vec<u8>)
    requires
        x.wf(),
    ensures
        out@ == spec_debug_mag(x.val(), alt),
        forall|i: int| 0 <= i < out@.len() ==> #[trigger] out@[i] < 128,
{
    let dec = mag_digits(x, 10, false);
    proof {
        lemma_mag_bytes_ascii(x.val(), 10, false);
    }
    let mut out: Vec<u8> = Vec::new();
    if dec.len() > 38 {
        push_range(&mut out, &dec, 0, 19);
        out.push(46);
        out.push(46);
        let dl = dec.len();
        push_range(&mut out, &dec, dl - 19, dl);
        proof {
            assert(dec@.subrange(0, 19) =~= dec@.take(19));
            assert(dec@.subrange(dl - 19, dl as int) =~= dec@.skip(dl - 19));
            assert(out@ =~= dec@.take(19) + seq![46u8, 46u8] + dec@.skip(dl - 19));
        }
    } else {
        push_range(&mut out, &dec, 0, dec.len());
        proof {
            assert(dec@.subrange(0, dec@.len() as int) =~= dec@);
            assert(out@ =~= dec@);
        }
    }
    if alt {
        let count: u64 = if x.is_zero() {
            0
        } else {
            dec.len() as u64
        };
        let count_digits = mag_digits(&UBig::from_word(count), 10, false);
        let bits = x.bit_len();
        let bit_digits = mag_digits(&UBig::from_double_word(bits), 10, false);
        proof {
            lemma_mag_bytes_ascii(count as nat, 10, false);
            lemma_mag_bytes_ascii(crate::div::bit_len_nat(x.val()), 10, false);
        }
        let ghost shown = out@;
        out.push(32);
        out.push(40);
        push_range(&mut out, &count_digits, 0, count_digits.len());
        out.push(32);
        out.push(100);
        out.push(105);
        out.push(103);
        out.push(105);
        out.push(116);
        out.push(115);
        out.push(44);
        out.push(32);
        push_range(&mut out, &bit_digits, 0, bit_digits.len());
        out.push(32);
        out.push(98);
        out.push(105);
        out.push(116);
        out.push(115);
        out.push(41);
        proof {
            assert(count_digits@.subrange(0, count_digits@.len() as int) =~= count_digits@);
            assert(bit_digits@.subrange(0, bit_digits@.len() as int) =~= bit_digits@);
            assert(out@ =~= shown + seq![32u8, 40u8] + count_digits@ + seq![
                32u8,
                100u8,
                105u8,
                103u8,
                105u8,
                116u8,
                115u8,
                44u8,
                32u8,
            ] + bit_digits@ + seq![32u8, 98u8, 105u8, 116u8, 115u8, 41u8]);
        }
    }
    out
}

impl UBig {
    /// The debug text of this magnitude; the alternate form appends the
    /// exact digit and bit counts.
    pub fn to_debug_string(&self, alternate: bool) -> (r: String)
        requires
            self.wf(),
        ensures
            r@ == chars_of_bytes(spec_debug_mag(self.val(), alternate)),
    {
        let bytes = debug_mag_bytes(self, alternate);
        ascii_to_string(bytes)
    }
}

impl crate::sign::IBig {
    /// The debug text of this integer: its sign marker, then the debug text
    /// of its magnitude.
    pub fn to_debug_string(&self, show_plus: bool, alternate: bool) -> (r: String)
        requires
            self.wf(),
        ensures
            r@ == chars_of_bytes(
                spec_sign_bytes(self.ival() < 0, show_plus) + spec_debug_mag(
                    if self.ival() < 0 {
                        (-self.ival()) as nat
                    } else {
                        self.ival() as nat
                    },
                    alternate,
                ),
            ),
    {
        let mut out: Vec<u8> = Vec::new();
        let neg = matches!(self.sign, crate::sign::Sign::Negative);
        if neg {
            out.push(45);
        } else if show_plus {
            out.push(43);
        }
        let ghost sign_part = out@;
        let mag_bytes = debug_mag_bytes(&self.mag, alternate);
        push_range(&mut out, &mag_bytes, 0, mag_bytes.len());
        proof {
            assert(mag_bytes@.subrange(0, mag_bytes@.len() as int) =~= mag_bytes@);
            assert(sign_part =~= spec_sign_bytes(neg, show_plus));
            assert(out@ =~= spec_sign_bytes(neg, show_plus) + mag_bytes@);
            if neg {
                assert(self.ival() < 0 && (-self.ival()) as nat == self.mag.val());
            } else {
                assert(self.ival() >= 0 && self.ival() as nat == self.mag.val());
            }
        }
        ascii_to_string(out)
    }
}

impl crate::sign::IBig {
    /// Renders this integer under a full formatting request: its sign, then
    /// its magnitude.
    pub fn format_with(&self, o: &FmtOptions) -> (res: Result<String, crate::error::Error>)
        requires
            self.wf(),
            o.fill < 128,
        ensures
            match res {
                Ok(s) => 2 <= o.radix <= 36 && s@ == chars_of_bytes(
                    spec_format_int(self.ival(), *o),
                ),
                Err(e) => !(2 <= o.radix <= 36) && e == crate::error::Error::InvalidBase,
            },
    {
        if o.radix < 2 || o.radix > 36 {
            return Err(crate::error::Error::InvalidBase);
        }
        let neg = matches!(self.sign, crate::sign::Sign::Negative);
        let bytes = format_mag_bytes(&self.mag, neg, o);
        proof {
            lemma_format_ascii(self.mag.val(), neg, *o);
            if neg {
                assert(self.ival() < 0 && (-self.ival()) as nat == self.mag.val());
            } else {
                assert(self.ival() >= 0 && self.ival() as nat == self.mag.val());
            }
        }
        Ok(ascii_to_string(bytes))
    }

    /// The canonical decimal text of this integer.
    pub fn to_string(&self) -> (r: String)
        requires
            self.wf(),
        ensures
            r@ == chars_of_bytes(
                spec_sign_bytes(self.ival() < 0, false) + spec_fmt_mag(
                    if self.ival() < 0 {
                        (-self.ival()) as nat
                    } else {
                        self.ival() as nat
                    },
                    10,
                    false,
                ),
            ),
    {
        let o = FmtOptions::new();
        let neg = matches!(self.sign, crate::sign::Sign::Negative);
        let bytes = format_mag_bytes(&self.mag, neg, &o);
        proof {
            lemma_format_ascii(self.mag.val(), neg, o);
            let core = spec_sign_bytes(neg, false) + spec_prefix_bytes(o) + spec_fmt_mag(
                self.mag.val(),
                10,
                false,
            );
            assert(core.len() >= o.width);
            assert(core =~= spec_sign_bytes(neg, false) + spec_fmt_mag(self.mag.val(), 10, false));
        }
        ascii_to_string(bytes)
    }

    /// The plain digit text of this integer in the given base, lowercase,
    /// with a `-` for negative values.
    pub fn to_radix_string(&self, radix: u32) -> (res: Result<String, crate::error::Error>)
        requires
            self.wf(),
        ensures
            match res {
                Ok(s) => 2 <= radix <= 36 && s@ == chars_of_bytes(
                    spec_sign_bytes(self.ival() < 0, false) + spec_fmt_mag(
                        if self.ival() < 0 {
                            (-self.ival()) as nat
                        } else {
                            self.ival() as nat
                        },
                        radix as nat,
                        false,
                    ),
                ),
                Err(e) => !(2 <= radix <= 36) && e == crate::error::Error::InvalidBase,
            },
    {
        if radix < 2 || radix > 36 {
            return Err(crate::error::Error::InvalidBase);
        }
        let mut o = FmtOptions::new();
        o.radix = radix;
        let neg = matches!(self.sign, crate::sign::Sign::Negative);
        let bytes = format_mag_bytes(&self.mag, neg, &o);
        proof {
            lemma_format_ascii(self.mag.val(), neg, o);
            let core = spec_sign_bytes(neg, false) + spec_prefix_bytes(o) + spec_fmt_mag(
                self.mag.val(),
                radix as nat,
                false,
            );
            assert(core.len() >= o.width);
            assert(core =~= spec_sign_bytes(neg, false) + spec_fmt_mag(
                self.mag.val(),
                radix as nat,
                false,
            ));
        }
        Ok(ascii_to_string(bytes))
    }
}

} // verus!
