use bignum::{Align, Error, FmtOptions, IBig, Sign, UBig};

fn u(s: &str) -> UBig {
    UBig::from_str_radix(s, 10).unwrap()
}

fn i(s: &str) -> IBig {
    IBig::from_str_radix(s, 10).unwrap()
}

fn opts(
    radix: u32,
    upper: bool,
    plus: bool,
    prefix: bool,
    width: usize,
    fill: char,
    align: Align,
    zero: bool,
) -> FmtOptions {
    let mut o = FmtOptions::new();
    o.radix = radix;
    o.uppercase = upper;
    o.show_plus = plus;
    o.prefix = prefix;
    o.width = width;
    o.fill = fill as u8;
    o.align = align;
    o.zero_pad = zero;
    o
}

fn fmt_u(x: &UBig, o: FmtOptions) -> String {
    x.format_with(&o).unwrap()
}

fn fmt_i(x: &IBig, o: FmtOptions) -> String {
    x.format_with(&o).unwrap()
}

#[test]
fn test_ubig_format() {
    assert_eq!(UBig::from_word(u8::MAX as u64).to_string(), "255");
    assert_eq!(UBig::from_word(u16::MAX as u64).to_string(), "65535");
    assert_eq!(UBig::from_word(u32::MAX as u64).to_string(), "4294967295");
    assert_eq!(UBig::from_word(u64::MAX).to_string(), "18446744073709551615");
    assert_eq!(
        UBig::from_double_word(u128::MAX).to_string(),
        "340282366920938463463374607431768211455"
    );

    assert_eq!(u("0").to_radix_string(2).unwrap(), "0");
    assert_eq!(u("100").to_radix_string(2).unwrap(), "1100100");
    assert_eq!(fmt_u(&u("100"), opts(2, false, false, true, 0, ' ', Align::Right, false)), "0b1100100");
    assert_eq!(fmt_u(&u("100"), opts(2, false, true, false, 0, ' ', Align::Right, false)), "+1100100");
    assert_eq!(fmt_u(&u("100"), opts(2, false, true, true, 0, ' ', Align::Right, false)), "+0b1100100");
    assert_eq!(fmt_u(&u("100"), opts(2, false, false, false, 10, ' ', Align::Right, false)), "   1100100");
    assert_eq!(fmt_u(&u("100"), opts(2, false, false, false, 10, '=', Align::Left, false)), "1100100===");
    assert_eq!(fmt_u(&u("100"), opts(2, false, false, false, 10, '=', Align::Right, false)), "===1100100");
    assert_eq!(fmt_u(&u("100"), opts(2, false, false, false, 10, '=', Align::Center, false)), "=1100100==");
    assert_eq!(fmt_u(&u("100"), opts(2, false, true, false, 10, '=', Align::Center, false)), "=+1100100=");
    assert_eq!(fmt_u(&u("100"), opts(2, false, true, false, 10, ' ', Align::Right, true)), "+001100100");
    assert_eq!(fmt_u(&u("100"), opts(2, false, true, true, 10, ' ', Align::Right, true)), "+0b1100100");
    assert_eq!(fmt_u(&u("100"), opts(2, false, true, true, 1, ' ', Align::Right, true)), "+0b1100100");
    assert_eq!(u("100").to_radix_string(8).unwrap(), "144");
    assert_eq!(fmt_u(&u("100"), opts(8, false, false, true, 0, ' ', Align::Right, false)), "0o144");
    assert_eq!(u("3000").to_radix_string(16).unwrap(), "bb8");
    assert_eq!(fmt_u(&u("3000"), opts(16, false, false, true, 0, ' ', Align::Right, false)), "0xbb8");
    assert_eq!(fmt_u(&u("3000"), opts(16, true, false, false, 0, ' ', Align::Right, false)), "BB8");
    assert_eq!(fmt_u(&u("3000"), opts(16, true, false, true, 0, ' ', Align::Right, false)), "0xBB8");
    assert_eq!(fmt_u(&u("3000"), opts(16, true, false, true, 10, ' ', Align::Right, false)), "     0xBB8");

    assert_eq!(u("123").to_string(), "123");
    assert_eq!(u("123").to_debug_string(false), "123");
    assert_eq!(fmt_u(&u("123"), opts(10, false, false, false, 5, '=', Align::Right, false)), "==123");

    let a = UBig::from_be_bytes(&[
        0x05, 0xee, 0x01, 0x23, 0x45, 0x67, 0x89, 0xab, 0xcd, 0xef, 0x01, 0x23, 0x45, 0x67, 0x89,
        0xab, 0xcd, 0xef, 0x01, 0x23, 0x45, 0x67, 0x89, 0xab, 0xcd, 0xef, 0x01, 0x23, 0x45, 0x67,
        0x89, 0xab, 0xcd, 0xef, 0x01, 0x23, 0x45, 0x67, 0x89, 0xab, 0xcd, 0xef,
    ]);
    assert_eq!(
        a.to_radix_string(16).unwrap(),
        "5ee0123456789abcdef0123456789abcdef0123456789abcdef0123456789abcdef0123456789abcdef"
    );
    assert_eq!(
        fmt_u(&a, opts(16, true, false, false, 0, ' ', Align::Right, false)),
        "5EE0123456789ABCDEF0123456789ABCDEF0123456789ABCDEF0123456789ABCDEF0123456789ABCDEF"
    );
    assert_eq!(
        fmt_u(&a, opts(16, true, false, false, 100, ' ', Align::Center, false)),
        "        5EE0123456789ABCDEF\
        0123456789ABCDEF0123456789ABCDEF0123456789ABCDEF0123456789ABCDEF         "
    );
    assert_eq!(
        a.to_radix_string(8).unwrap(),
        "1367001106425474232571573600443212636115274675700221505317046\
        53633674011064254742325715736004432126361152746757"
    );
    assert_eq!(
        fmt_u(&a, opts(8, false, false, false, 120, ' ', Align::Right, false)),
        "         1367001106425474232571573600443212636115274675700221505317046\
        53633674011064254742325715736004432126361152746757"
    );
    assert_eq!(
        fmt_u(&a, opts(10, false, false, false, 120, ' ', Align::Right, false)),
        "                    32424378138036567091203300829444432818122896389983\
        04588119616982843278155375835513236887964094287343"
    );
}

#[test]
fn test_ubig_in_radix() {
    assert_eq!(u("0").to_radix_string(2).unwrap(), "0");
    assert_eq!(u("100").to_radix_string(4).unwrap(), "1210");
    assert_eq!(u("3000").to_radix_string(16).unwrap(), "bb8");
    assert_eq!(fmt_u(&u("3000"), opts(16, false, true, false, 10, ' ', Align::Right, true)), "+000000bb8");
    assert_eq!(fmt_u(&u("3000"), opts(16, true, true, false, 10, ' ', Align::Right, true)), "+000000BB8");
    assert_eq!(u("1294").to_radix_string(36).unwrap(), "zy");
    assert_eq!(fmt_u(&u("1294"), opts(36, true, false, false, 10, ' ', Align::Right, true)), "00000000ZY");

    assert_eq!(UBig::from_word(0xffffffff).to_radix_string(3).unwrap(), "102002022201221111210");
    assert_eq!(
        UBig::from_word(0xffffffffffffffff).to_radix_string(3).unwrap(),
        "11112220022122120101211020120210210211220"
    );

    let a = UBig::from_le_bytes(&[0xff; 50]);
    assert_eq!(
        a.to_radix_string(32).unwrap(),
        "vvvvvvvvvvvvvvvvvvvvvvvvvvvvvvvvvvvvvvvvvvvvvvvvvvvvvvvvvvvvvvvvvvvvvvvvvvvvvvvv"
    );

    assert_eq!(u("123456789").to_string(), "123456789");
    assert_eq!(
        u("123456789000000000000000000000000000000000123789749847509837450987340589273405")
            .to_string(),
        "123456789000000000000000000000000000000000123789749847509837450987340589273405"
    );
    assert_eq!(
        UBig::from_str_radix("83c0d7401f0188462502c2e5f7035386b1c341d307e5fbe8200756201607769a706134cfab1", 16)
            .unwrap()
            .to_string(),
        "1048383517376714931597372965085953822045235087388094946568022880798260489887669110556129969"
    );
    assert_eq!(
        u("1048383517376714931597372965085953822045235087388094946568022880798260489887669110556129969")
            .to_radix_string(16)
            .unwrap(),
        "83c0d7401f0188462502c2e5f7035386b1c341d307e5fbe8200756201607769a706134cfab1"
    );
}

#[test]
fn test_ibig_format() {
    assert_eq!(i("-123").to_string(), "-123");
    assert_eq!(i("-123").to_debug_string(false, false), "-123");
    assert_eq!(fmt_i(&i("-123"), opts(10, false, false, false, 10, '=', Align::Right, false)), "======-123");

    assert_eq!(i("0").to_radix_string(2).unwrap(), "0");
    assert_eq!(i("100").to_radix_string(2).unwrap(), "1100100");
    assert_eq!(i("-100").to_radix_string(2).unwrap(), "-1100100");
    assert_eq!(fmt_i(&i("100"), opts(2, false, false, true, 0, ' ', Align::Right, false)), "0b1100100");
    assert_eq!(fmt_i(&i("-100"), opts(2, false, false, true, 0, ' ', Align::Right, false)), "-0b1100100");
    assert_eq!(fmt_i(&i("100"), opts(2, false, true, false, 0, ' ', Align::Right, false)), "+1100100");
    assert_eq!(fmt_i(&i("-100"), opts(2, false, true, false, 0, ' ', Align::Right, false)), "-1100100");
    assert_eq!(fmt_i(&i("100"), opts(2, false, true, true, 0, ' ', Align::Right, false)), "+0b1100100");
    assert_eq!(fmt_i(&i("-100"), opts(2, false, true, true, 0, ' ', Align::Right, false)), "-0b1100100");
    assert_eq!(fmt_i(&i("100"), opts(2, false, false, false, 10, ' ', Align::Right, false)), "   1100100");
    assert_eq!(fmt_i(&i("-100"), opts(2, false, false, false, 10, ' ', Align::Right, false)), "  -1100100");
    assert_eq!(fmt_i(&i("100"), opts(2, false, false, false, 10, '=', Align::Left, false)), "1100100===");
    assert_eq!(fmt_i(&i("-100"), opts(2, false, false, false, 10, '=', Align::Left, false)), "-1100100==");
    assert_eq!(fmt_i(&i("100"), opts(2, false, false, false, 10, '=', Align::Right, false)), "===1100100");
    assert_eq!(fmt_i(&i("-100"), opts(2, false, false, false, 10, '=', Align::Right, false)), "==-1100100");
    assert_eq!(fmt_i(&i("100"), opts(2, false, false, false, 10, '=', Align::Center, false)), "=1100100==");
    assert_eq!(fmt_i(&i("-100"), opts(2, false, false, false, 10, '=', Align::Center, false)), "=-1100100=");
    assert_eq!(fmt_i(&i("100"), opts(2, false, true, false, 10, '=', Align::Center, false)), "=+1100100=");
    assert_eq!(fmt_i(&i("-100"), opts(2, false, true, false, 10, '=', Align::Center, false)), "=-1100100=");
    assert_eq!(fmt_i(&i("100"), opts(2, false, true, false, 10, ' ', Align::Right, true)), "+001100100");
    assert_eq!(fmt_i(&i("-100"), opts(2, false, true, false, 10, ' ', Align::Right, true)), "-001100100");
    assert_eq!(fmt_i(&i("100"), opts(2, false, true, true, 10, ' ', Align::Right, true)), "+0b1100100");
    assert_eq!(fmt_i(&i("-100"), opts(2, false, true, true, 10, ' ', Align::Right, true)), "-0b1100100");
    assert_eq!(fmt_i(&i("100"), opts(2, false, true, true, 1, ' ', Align::Right, true)), "+0b1100100");
    assert_eq!(fmt_i(&i("-100"), opts(2, false, true, true, 1, ' ', Align::Right, true)), "-0b1100100");
    assert_eq!(i("100").to_radix_string(8).unwrap(), "144");
    assert_eq!(i("-100").to_radix_string(8).unwrap(), "-144");
    assert_eq!(fmt_i(&i("100"), opts(8, false, false, true, 0, ' ', Align::Right, false)), "0o144");
    assert_eq!(fmt_i(&i("-100"), opts(8, false, false, true, 0, ' ', Align::Right, false)), "-0o144");
    assert_eq!(i("3000").to_radix_string(16).unwrap(), "bb8");
    assert_eq!(i("-3000").to_radix_string(16).unwrap(), "-bb8");
    assert_eq!(fmt_i(&i("3000"), opts(16, false, false, true, 0, ' ', Align::Right, false)), "0xbb8");
    assert_eq!(fmt_i(&i("-3000"), opts(16, false, false, true, 0, ' ', Align::Right, false)), "-0xbb8");
    assert_eq!(fmt_i(&i("3000"), opts(16, true, false, false, 0, ' ', Align::Right, false)), "BB8");
    assert_eq!(fmt_i(&i("-3000"), opts(16, true, false, false, 0, ' ', Align::Right, false)), "-BB8");
    assert_eq!(fmt_i(&i("3000"), opts(16, true, false, true, 0, ' ', Align::Right, false)), "0xBB8");
    assert_eq!(fmt_i(&i("-3000"), opts(16, true, false, true, 0, ' ', Align::Right, false)), "-0xBB8");
    assert_eq!(fmt_i(&i("3000"), opts(16, true, false, true, 10, ' ', Align::Right, false)), "     0xBB8");
    assert_eq!(fmt_i(&i("-3000"), opts(16, true, false, true, 10, ' ', Align::Right, false)), "    -0xBB8");
}

#[test]
fn test_ibig_in_radix() {
    assert_eq!(i("0").to_radix_string(2).unwrap(), "0");
    assert_eq!(i("100").to_radix_string(4).unwrap(), "1210");
    assert_eq!(i("-100").to_radix_string(4).unwrap(), "-1210");
    assert_eq!(i("3000").to_radix_string(16).unwrap(), "bb8");
    assert_eq!(i("-3000").to_radix_string(16).unwrap(), "-bb8");
    assert_eq!(fmt_i(&i("3000"), opts(16, false, true, false, 10, ' ', Align::Right, true)), "+000000bb8");
    assert_eq!(fmt_i(&i("-3000"), opts(16, false, true, false, 10, ' ', Align::Right, true)), "-000000bb8");
    assert_eq!(fmt_i(&i("3000"), opts(16, true, false, false, 10, ' ', Align::Right, true)), "0000000BB8");
    assert_eq!(fmt_i(&i("-3000"), opts(16, true, false, false, 10, ' ', Align::Right, true)), "-000000BB8");
    assert_eq!(fmt_i(&i("-3000"), opts(10, true, false, false, 10, ' ', Align::Right, true)), "-000003000");

    assert_eq!(i("0").to_radix_string(16).unwrap(), "0");
    assert_eq!(i("100").to_radix_string(4).unwrap(), "1210");
    assert_eq!(i("-100").to_radix_string(4).unwrap(), "-1210");
    assert_eq!(i("3000").to_radix_string(16).unwrap(), "bb8");
    assert_eq!(i("-3000").to_radix_string(16).unwrap(), "-bb8");
    assert_eq!(i("3000").to_radix_string(32).unwrap(), "2to");
    assert_eq!(i("-3000").to_radix_string(32).unwrap(), "-2to");
    assert_eq!(i("-1234").to_string(), "-1234");
}

#[test]
fn test_ubig_from_str_radix() {
    assert_eq!(UBig::from_str_radix("", 2).unwrap_err(), Error::NoDigits);
    assert_eq!(UBig::from_str_radix("+", 2).unwrap_err(), Error::NoDigits);
    assert_eq!(UBig::from_str_radix("012", 2).unwrap_err(), Error::InvalidDigit);
    assert_eq!(
        UBig::from_str_radix("ffffffffffffffffffffffffffffffffffffffffffffffg", 16).unwrap_err(),
        Error::InvalidDigit
    );
    assert_eq!(
        UBig::from_str_radix("ffff_ffff_ffff_ffff_ffff_ffff_ffff_fffg", 16).unwrap_err(),
        Error::InvalidDigit
    );
    assert_eq!(UBig::from_str_radix("-0", 2).unwrap_err(), Error::InvalidDigit);
    assert_eq!(UBig::from_str_radix("+0", 2).unwrap(), u("0"));
    assert_eq!(UBig::from_str_radix("0", 2).unwrap(), u("0"));
    assert_eq!(UBig::from_str_radix("0000000000000", 2).unwrap(), u("0"));
    assert_eq!(UBig::from_str_radix("000_000_000_000_0", 2).unwrap(), u("0"));
    assert_eq!(UBig::from_str_radix("1010110", 2).unwrap(), UBig::from_word(0b1010110));
    assert_eq!(UBig::from_str_radix("0101_0110", 2).unwrap(), UBig::from_word(0b1010110));
    assert_eq!(UBig::from_str_radix("f1Ee", 16).unwrap(), UBig::from_word(0xf1ee));
    assert_eq!(UBig::from_str_radix("f1_Ee", 16).unwrap(), UBig::from_word(0xf1ee));
    assert_eq!(UBig::from_str_radix("Pp", 32).unwrap(), u("825"));
    assert_eq!(UBig::from_str_radix("P_p", 32).unwrap(), u("825"));

    assert_eq!(UBig::from_str_radix("12345", 10), Ok(u("12345")));
    assert_eq!(UBig::from_str_radix("1_23_45", 10), Ok(u("12345")));
    assert_eq!(UBig::from_str_radix("abzz", 36), Ok(u("482111")));
    assert_eq!(UBig::from_str_radix("ab_zz", 36), Ok(u("482111")));
    assert_eq!(
        UBig::from_str_radix(
            "1538958592398779500320098585338768070858734861441260196946465951498852935601537907018559511",
            10
        ),
        UBig::from_str_radix(
            "c167bcc5802bf76f345a9f2a738d9d3b75ea4560a9be33c330216cbd15efc15d872a781f017",
            16
        )
    );
    assert_eq!(
        UBig::from_str_radix(
            "15389_58592_39877_95003_20098_58533_87680_70858_73486_14412_60196_94646_59514_98852_93560",
            10
        ),
        UBig::from_str_radix(
            "571a_1aad_3444_d2c7_ce28_eacd_2285_2faa_03fe_3956_505c_f11e_cd48_6b7b_5f43_f8",
            16
        )
    );

    {
        let x: UBig = UBig::from_str_radix("1234", 10).unwrap();
        assert_eq!(x, u("1234"));
    }
    {
        let x: UBig = UBig::from_str_radix("0000000000000000001234", 10).unwrap();
        assert_eq!(x, u("1234"));
    }
}

#[test]
fn test_ibig_from_str_radix() {
    assert_eq!(IBig::from_str_radix("", 2).unwrap_err(), Error::NoDigits);
    assert_eq!(IBig::from_str_radix("+", 2).unwrap_err(), Error::NoDigits);
    assert_eq!(IBig::from_str_radix("-", 2).unwrap_err(), Error::NoDigits);
    assert_eq!(IBig::from_str_radix("-+5", 2).unwrap_err(), Error::InvalidDigit);
    assert_eq!(IBig::from_str_radix("-012", 2).unwrap_err(), Error::InvalidDigit);
    assert_eq!(IBig::from_str_radix("0", 2).unwrap(), i("0"));
    assert_eq!(IBig::from_str_radix("+0", 2).unwrap(), i("0"));
    assert_eq!(IBig::from_str_radix("-0", 2).unwrap(), i("0"));
    assert_eq!(IBig::from_str_radix("1010110", 2).unwrap(), IBig::from_i64(0b1010110));
    assert_eq!(IBig::from_str_radix("-1010110", 2).unwrap(), IBig::from_i64(-0b1010110));
    {
        let x: IBig = IBig::from_str_radix("-1234", 10).unwrap();
        assert_eq!(x, i("-1234"));
    }
}

#[test]
fn test_radix_round_trip() {
    assert_eq!(
        UBig::from_str_radix("abCCcaacacbbcbabcbacbacbabcabcbabcabbc1000", 16)
            .unwrap()
            .to_radix_string(16)
            .unwrap(),
        "abcccaacacbbcbabcbacbacbabcabcbabcabbc1000"
    );
    assert_eq!(
        UBig::from_str_radix("12341235234512341345356745634563563563457356356354645634563456", 8)
            .unwrap()
            .to_radix_string(16)
            .unwrap(),
        "a70a75394a70b95dde5ce5cee77397bb9dcecd2e72e72e"
    );

    let x: UBig = u("1287912837409187345908734509873240897234");
    assert_eq!(x.to_string(), "1287912837409187345908734509873240897234");

    // 1000..000, 999.999
    let ten = UBig::from_word(10);
    let one = UBig::from_word(1);
    for e in 0..1000usize {
        let x = ten.pow(e);
        let y: UBig = UBig::from_str_radix(&x.to_string(), 10).unwrap();
        assert_eq!(x, y);
        let xm = x.sub(&one);
        let y: UBig = UBig::from_str_radix(&xm.to_string(), 10).unwrap();
        assert_eq!(xm, y);
    }

    // hex 1000...000, fff...fff
    for e in 0..100usize {
        let x: UBig = one.shl(64 * e);
        let y: UBig = UBig::from_str_radix(&x.to_string(), 10).unwrap();
        assert_eq!(x, y);
        let xm = x.sub(&one);
        let y: UBig = UBig::from_str_radix(&xm.to_string(), 10).unwrap();
        assert_eq!(xm, y);
    }

    assert_eq!(
        IBig::from_str_radix("-abCCcaacacbbcbabcbacbacbabcabcbabcabbc1000", 16)
            .unwrap()
            .to_radix_string(16)
            .unwrap(),
        "-abcccaacacbbcbabcbacbacbabcabcbabcabbc1000"
    );
}

#[test]
fn test_from_str_radix_with_radix_prefix() {
    assert_eq!(UBig::from_str_with_radix_prefix("17").unwrap(), (UBig::from_word(17), 10));
    assert_eq!(UBig::from_str_with_radix_prefix("+17").unwrap(), (UBig::from_word(17), 10));
    assert_eq!(UBig::from_str_with_radix_prefix("0b101").unwrap(), (UBig::from_word(0b101), 2));
    assert_eq!(UBig::from_str_with_radix_prefix("+0b101").unwrap(), (UBig::from_word(0b101), 2));
    assert_eq!(UBig::from_str_with_radix_prefix("0o177").unwrap(), (UBig::from_word(0o177), 8));
    assert_eq!(UBig::from_str_with_radix_prefix("+0o177").unwrap(), (UBig::from_word(0o177), 8));
    assert_eq!(UBig::from_str_with_radix_prefix("0x1eE").unwrap(), (UBig::from_word(0x1ee), 16));
    assert_eq!(UBig::from_str_with_radix_prefix("+0x1eE").unwrap(), (UBig::from_word(0x1ee), 16));

    assert_eq!(IBig::from_str_with_radix_prefix("17").unwrap(), (IBig::from_i64(17), 10));
    assert_eq!(IBig::from_str_with_radix_prefix("+17").unwrap(), (IBig::from_i64(17), 10));
    assert_eq!(IBig::from_str_with_radix_prefix("-17").unwrap(), (IBig::from_i64(-17), 10));
    assert_eq!(IBig::from_str_with_radix_prefix("0b101").unwrap(), (IBig::from_i64(0b101), 2));
    assert_eq!(IBig::from_str_with_radix_prefix("+0b101").unwrap(), (IBig::from_i64(0b101), 2));
    assert_eq!(IBig::from_str_with_radix_prefix("-0b101").unwrap(), (IBig::from_i64(-0b101), 2));
    assert_eq!(IBig::from_str_with_radix_prefix("0o177").unwrap(), (IBig::from_i64(0o177), 8));
    assert_eq!(IBig::from_str_with_radix_prefix("+0o177").unwrap(), (IBig::from_i64(0o177), 8));
    assert_eq!(IBig::from_str_with_radix_prefix("-0o177").unwrap(), (IBig::from_i64(-0o177), 8));
    assert_eq!(IBig::from_str_with_radix_prefix("0x1eE").unwrap(), (IBig::from_i64(0x1ee), 16));
    assert_eq!(IBig::from_str_with_radix_prefix("+0x1eE").unwrap(), (IBig::from_i64(0x1ee), 16));
    assert_eq!(IBig::from_str_with_radix_prefix("-0x1eE").unwrap(), (IBig::from_i64(-0x1ee), 16));

    assert_eq!(UBig::from_str_with_radix_prefix("").unwrap_err(), Error::NoDigits);
    assert_eq!(UBig::from_str_with_radix_prefix("+").unwrap_err(), Error::NoDigits);
    assert_eq!(UBig::from_str_with_radix_prefix("0b102").unwrap_err(), Error::InvalidDigit);

    assert_eq!(IBig::from_str_with_radix_prefix("").unwrap_err(), Error::NoDigits);
    assert_eq!(IBig::from_str_with_radix_prefix("+").unwrap_err(), Error::NoDigits);
    assert_eq!(IBig::from_str_with_radix_prefix("-").unwrap_err(), Error::NoDigits);
    assert_eq!(IBig::from_str_with_radix_prefix("0x1fg").unwrap_err(), Error::InvalidDigit);
}

#[test]
fn test_display_errors() {
    assert_eq!(Error::NoDigits.message(), "no digits");
    assert_eq!(Error::InvalidDigit.message(), "invalid digit");
}

#[test]
fn test_macros() {
    assert_eq!(UBig::from_str_with_radix_prefix("17").unwrap().0, UBig::from_word(17));
    assert_eq!(UBig::from_str_with_radix_prefix("0b101").unwrap().0, UBig::from_word(0b101));
    assert_eq!(UBig::from_str_with_radix_prefix("0o177").unwrap().0, UBig::from_word(0o177));
    assert_eq!(
        UBig::from_str_with_radix_prefix("0x1aaaaaaaaaaaaaaaaaaaaaaaaaaaaaaaaaaaaaaaaaaaaaaaaaa")
            .unwrap()
            .0
            .to_radix_string(16)
            .unwrap(),
        "1aaaaaaaaaaaaaaaaaaaaaaaaaaaaaaaaaaaaaaaaaaaaaaaaaa"
    );
    assert_eq!(UBig::from_str_radix("100", 32).unwrap(), UBig::from_word(1024));
    assert_eq!(
        UBig::from_str_radix("ppppppppppppppppppp", 32).unwrap().to_radix_string(32).unwrap(),
        "ppppppppppppppppppp"
    );

    assert_eq!(IBig::from_str_with_radix_prefix("17").unwrap().0, IBig::from_i64(17));
    assert_eq!(IBig::from_str_with_radix_prefix("-17").unwrap().0, IBig::from_i64(-17));
    assert_eq!(IBig::from_str_with_radix_prefix("0b101").unwrap().0, IBig::from_i64(0b101));
    assert_eq!(IBig::from_str_with_radix_prefix("-0b101").unwrap().0, IBig::from_i64(-0b101));
    assert_eq!(IBig::from_str_with_radix_prefix("0o177").unwrap().0, IBig::from_i64(0o177));
    assert_eq!(IBig::from_str_with_radix_prefix("-0o177").unwrap().0, IBig::from_i64(-0o177));
    assert_eq!(IBig::from_str_with_radix_prefix("0x1ff").unwrap().0, IBig::from_i64(0x1ff));
    assert_eq!(IBig::from_str_with_radix_prefix("-0x1ff").unwrap().0, IBig::from_i64(-0x1ff));
    assert_eq!(
        IBig::from_str_with_radix_prefix("-0x1aaaaaaaaaaaaaaaaaaaaaaaaaaaaaaaaaaaaaaaaaaaaaaaaaa")
            .unwrap()
            .0
            .to_radix_string(16)
            .unwrap(),
        "-1aaaaaaaaaaaaaaaaaaaaaaaaaaaaaaaaaaaaaaaaaaaaaaaaaa"
    );
    assert_eq!(IBig::from_str_radix("100", 32).unwrap(), IBig::from_i64(1024));
    assert_eq!(IBig::from_str_radix("-100", 32).unwrap(), IBig::from_i64(-1024));
    assert_eq!(
        IBig::from_str_radix("ppppppppppppppppppp", 32).unwrap().to_radix_string(32).unwrap(),
        "ppppppppppppppppppp"
    );
    assert_eq!(
        IBig::from_str_radix("-ppppppppppppppppppp", 32).unwrap().to_radix_string(32).unwrap(),
        "-ppppppppppppppppppp"
    );
}

#[test]
fn test_ubig_debug() {
    let one = UBig::from_word(1);
    assert_eq!(u("0").to_debug_string(false), "0");
    assert_eq!(u("0").to_debug_string(true), "0 (0 digits, 0 bits)");
    assert_eq!(u("100").to_debug_string(false), "100");
    assert_eq!(u("100").to_debug_string(true), "100 (3 digits, 7 bits)");
    assert_eq!(u("12345678").to_debug_string(false), "12345678");
    assert_eq!(u("12345678").to_debug_string(true), "12345678 (8 digits, 24 bits)");
    assert_eq!(one.shl(31).sub(&one).to_debug_string(false), "2147483647");
    assert_eq!(one.shl(31).sub(&one).to_debug_string(true), "2147483647 (10 digits, 31 bits)");

    assert_eq!(one.shl(128).to_debug_string(false), "3402823669209384634..3374607431768211456");
    assert_eq!(
        one.shl(128).to_debug_string(true),
        "3402823669209384634..3374607431768211456 (39 digits, 129 bits)"
    );
    assert_eq!(
        one.shl(129).sub(&one).to_debug_string(false),
        "6805647338418769269..6749214863536422911"
    );
    assert_eq!(
        one.shl(129).sub(&one).to_debug_string(true),
        "6805647338418769269..6749214863536422911 (39 digits, 129 bits)"
    );
    assert_eq!(
        one.shl(200).sub(&one).to_debug_string(false),
        "1606938044258990275..2993782792835301375"
    );
    assert_eq!(
        one.shl(200).sub(&one).to_debug_string(true),
        "1606938044258990275..2993782792835301375 (61 digits, 200 bits)"
    );
    assert_eq!(
        one.shl(2000).sub(&one).to_debug_string(false),
        "1148130695274254524..3762184851149029375"
    );
    assert_eq!(
        one.shl(2000).sub(&one).to_debug_string(true),
        "1148130695274254524..3762184851149029375 (603 digits, 2000 bits)"
    );
}

#[test]
fn test_ibig_debug() {
    let one = UBig::from_word(1);
    assert_eq!(i("-0").to_debug_string(false, false), "0");
    assert_eq!(i("-0").to_debug_string(false, true), "0 (0 digits, 0 bits)");
    assert_eq!(i("-100").to_debug_string(false, false), "-100");
    assert_eq!(i("100").to_debug_string(true, false), "+100");
    assert_eq!(i("-100").to_debug_string(false, true), "-100 (3 digits, 7 bits)");
    assert_eq!(i("100").to_debug_string(true, true), "+100 (3 digits, 7 bits)");

    let m128 = IBig::from_sign_mag(Sign::Negative, one.shl(128));
    assert_eq!(m128.to_debug_string(false, false), "-3402823669209384634..3374607431768211456");
    assert_eq!(
        m128.to_debug_string(false, true),
        "-3402823669209384634..3374607431768211456 (39 digits, 129 bits)"
    );
    let m200 = IBig::from_sign_mag(Sign::Negative, one.shl(200).sub(&one));
    assert_eq!(m200.to_debug_string(false, false), "-1606938044258990275..2993782792835301375");
    assert_eq!(
        m200.to_debug_string(false, true),
        "-1606938044258990275..2993782792835301375 (61 digits, 200 bits)"
    );
}
