use bignum::{Error, IBig, UBig};

fn u(s: &str) -> UBig {
    UBig::from_str_radix(s, 10).unwrap()
}

fn uh(s: &str) -> UBig {
    UBig::from_str_radix(s, 16).unwrap()
}

fn ib(x: &UBig) -> IBig {
    IBig::from_ubig(x.clone())
}

#[test]
fn test_gcd_ubig() {
    // test cases (x, y, gcd(x,y))
    let test_cases = [
        // trivial cases
        (u("0"), u("123"), u("123")),
        (u("123"), u("0"), u("123")),
        (u("1"), u("123"), u("1")),
        (u("123"), u("1"), u("1")),
        (u("123"), u("123"), u("123")),
        (
            u("0"),
            uh("123456789123456789123456789123456789"),
            uh("123456789123456789123456789123456789"),
        ),
        (u("1"), uh("123456789123456789123456789123456789"), u("1")),
        (
            uh("123456789123456789123456789123456789"),
            uh("123456789123456789123456789123456789"),
            uh("123456789123456789123456789123456789"),
        ),
        // small cases
        (u("3"), u("7"), u("1")),
        (u("8"), u("9"), u("1")),
        (u("9"), u("8"), u("1")),
        (u("42"), u("56"), u("14")),
        (u("7966496"), u("314080416"), u("32")),
        // big cases
        (
            uh("ffffffffffffffffffffffff1"), // largest prime under 2^100
            uh("7ffffffffffffffffffffff8d"), // largest prime under 2^99
            u("1"),
        ),
        (
            uh("ffffffffffffffffffffffffffffff61"), // largest prime under 2^128
            uh("ffffffffffffffffffffffffffffff53"), // second largest prime under 2^128
            u("1"),
        ),
        (
            uh("3ffffffffffffffffffffffffffffffffffffd"), // largest prime under 2^150
            uh("1fffffffffffffffffffffffffffffffffffe1"), // largest prime under 2^149
            u("1"),
        ),
        (
            uh("123456789123456789123456789123456789"),
            uh("987654321"),
            uh("2d"),
        ),
        (
            uh("123456789123456789123456789123456789"),
            uh("987654321987654321987654321987654321"),
            uh("2d00000002d00000002d00000002d"),
        ),
        (
            uh("5a4653ca673768565b41f775d6947d55cf3813d1"), // 3^100
            uh("1000000000000000000000000000000000000000"),
            u("1"),
        ),
        (
            uh("1000000000000000000000000000000000000000000000000eb"), // first prime after 2^200
            uh("100000000000000000000000000000000000000000000000000000000000000000000000009d"), // first prime after 2^300
            u("1"),
        ),
        (
            uh("100000000000000000000000000000000000000000000000000000000000000000000000009d"),
            uh("100000000000000000000000000000000000000000000000000000000000000000000000000000000000000000000000000b5"), // first prime after 2^400
            u("1"),
        ),
        (
            u("9541590761809372806823445181494772614224189786781"),
            u("269120040206265862655074245332316974136638590557129744496105952360956998867985564496114298920939436079650169510482532190861609609644663884343086721587551983677544514295"),
            u("1"),
        ),
        (
            u("82374668589351327716850961655220860777198309362585356767551962516307253429467315703959898802658586372875264763319007374387473758850822495865554449187711436126"),
            u("26670195456596011221424694237548782549589802807766865293275505988717182112618046143878494843215456811172970603344701167285123673971424775466198384682101501381319877471305282410925936647623427837324275758273098197674268400910393213728144245761180650830272102839801127045093737937200818"),
            u("6"),
        ),
    ];

    for (a, b, c) in &test_cases {
        assert_eq!(&a.gcd(b).unwrap(), c);
        assert_eq!(&b.gcd(a).unwrap(), c);

        let (g, x, y) = a.gcd_ext(b).unwrap();
        assert_eq!(&g, c);
        assert_eq!(x.mul(&ib(a)).add(&y.mul(&ib(b))), IBig::from_ubig(g));
        let (g, y, x) = b.gcd_ext(a).unwrap();
        assert_eq!(&g, c);
        assert_eq!(x.mul(&ib(a)).add(&y.mul(&ib(b))), IBig::from_ubig(g));
    }
}

#[test]
fn test_gcd_0() {
    assert_eq!(u("0").gcd(&u("0")).unwrap_err(), Error::UndefinedGcd);
    assert_eq!(u("0").gcd_ext(&u("0")).unwrap_err(), Error::UndefinedGcd);
}

#[test]
fn test_gcd_ext_swapped_coefficients() {
    // swapping the arguments swaps the returned coefficient pair
    let a = u("7966496");
    let b = u("314080416");
    let (g1, x1, y1) = a.gcd_ext(&b).unwrap();
    let (g2, x2, y2) = b.gcd_ext(&a).unwrap();
    assert_eq!(g1, g2);
    assert_eq!(x1, y2);
    assert_eq!(y1, x2);
}
