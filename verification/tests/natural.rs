use extended_hash_map::natural::Natural;

fn from_decimal(text: &str) -> Natural {
    let mut n = Natural::zero();
    for c in text.bytes() {
        n = n.mul_add(10, u32::from(c - b'0'));
    }
    n
}

fn to_decimal(n: &Natural) -> String {
    let mut digits = Vec::new();
    let (mut rest, digit) = n.div_rem(10);
    digits.push(b'0' + digit as u8);
    while rest.to_u64() != Some(0) {
        let (quotient, digit) = rest.div_rem(10);
        digits.push(b'0' + digit as u8);
        rest = quotient;
    }
    digits.reverse();
    String::from_utf8(digits).unwrap()
}

#[test]
fn zero_is_zero() {
    assert_eq!(Natural::zero().to_u64(), Some(0));
    assert_eq!(Natural::zero().mul_add(7, 0).to_u64(), Some(0));
    assert_eq!(Natural::zero().mul_add(0, 9).to_u64(), Some(9));
    let (quotient, rem) = Natural::zero().div_rem(3);
    assert_eq!((quotient.to_u64(), rem), (Some(0), 0));
}

#[test]
fn mul_add_carries_into_new_limbs() {
    let n = Natural::zero().mul_add(0, u32::MAX);
    assert_eq!(n.to_u64(), Some(0xffff_ffff));
    let n = n.mul_add(u32::MAX, u32::MAX);
    assert_eq!(n.to_u64(), Some(0xffff_ffff * 0xffff_ffff + 0xffff_ffff));
    let n = n.mul_add(0x1_0000, 5);
    assert_eq!(n.to_u64(), None);
    let (n, rem) = n.div_rem(0x1_0000);
    assert_eq!(rem, 5);
    assert_eq!(n.to_u64(), Some(0xffff_ffff * 0xffff_ffff + 0xffff_ffff));
}

#[test]
fn to_u64_at_the_edge() {
    assert_eq!(
        from_decimal("18446744073709551615").to_u64(),
        Some(u64::MAX)
    );
    assert_eq!(from_decimal("18446744073709551616").to_u64(), None);
    assert_eq!(from_decimal("4294967296").to_u64(), Some(1 << 32));
}

#[test]
fn div_rem_gives_quotient_and_remainder() {
    let n = from_decimal("1000000000000000000000000000007");
    let (quotient, rem) = n.div_rem(1_000_000_000);
    assert_eq!(rem, 7);
    assert_eq!(to_decimal(&quotient), "1000000000000000000000");
    let (quotient, rem) = quotient.div_rem(7);
    assert_eq!(rem, 6);
    assert_eq!(to_decimal(&quotient), "142857142857142857142");
    let (quotient, rem) = from_decimal("5").div_rem(9);
    assert_eq!((quotient.to_u64(), rem), (Some(0), 5));
}

#[test]
fn decimal_round_trip() {
    for text in [
        "0",
        "1",
        "4294967295",
        "4294967296",
        "340282366920938463463374607431768211456",
        "123456789012345678901234567890123456789012345678901234567890",
    ] {
        assert_eq!(to_decimal(&from_decimal(text)), text);
    }
}
