use extended_hash_map::binary64::{numeral_bits_of, INFINITY_BITS};

fn as_double(text: &str) -> u64 {
    text.parse::<f64>().unwrap().to_bits()
}

fn agrees(text: &str) {
    assert_eq!(numeral_bits_of(text), Some(as_double(text)), "{}", text);
}

struct Dice(u64);

impl Dice {
    fn roll(&mut self, sides: u64) -> u64 {
        self.0 = self
            .0
            .wrapping_mul(6364136223846793005)
            .wrapping_add(1442695040888963407);
        (self.0 >> 33) % sides
    }

    fn digits(&mut self, len: u64) -> String {
        let mut text = String::new();
        for _ in 0..len {
            text.push(char::from(b'0' + self.roll(10) as u8));
        }
        text
    }
}

#[test]
fn exact_values() {
    assert_eq!(numeral_bits_of("0"), Some(0));
    assert_eq!(numeral_bits_of("000"), Some(0));
    assert_eq!(numeral_bits_of("0.000"), Some(0));
    assert_eq!(numeral_bits_of("1"), Some(0x3FF0_0000_0000_0000));
    assert_eq!(numeral_bits_of("1.0"), Some(0x3FF0_0000_0000_0000));
    assert_eq!(numeral_bits_of("1."), Some(0x3FF0_0000_0000_0000));
    assert_eq!(numeral_bits_of("2"), Some(0x4000_0000_0000_0000));
    assert_eq!(numeral_bits_of("3.5"), Some(0x400C_0000_0000_0000));
    assert_eq!(numeral_bits_of("0.5"), Some(0x3FE0_0000_0000_0000));
    assert_eq!(numeral_bits_of("10"), Some(0x4024_0000_0000_0000));
    assert_eq!(numeral_bits_of("0.1"), Some(0x3FB9_9999_9999_999A));
}

#[test]
fn what_is_no_numeral() {
    for text in [
        "", ".", ".5", "1.2.3", "1e5", "+1", "-1", " 1", "1 ", "abc", "1a", "1.a", "inf", "NaN",
        "1..", "1,5", "\u{663}",
    ] {
        assert_eq!(numeral_bits_of(text), None, "{:?}", text);
    }
}

#[test]
fn agrees_with_the_standard_library_on_plain_numerals() {
    for text in [
        "0", "1", "2", "3", "10", "100", "255", "1024", "65535", "4294967296", "3.5", "0.1", "0.2",
        "0.3", "5.", "12.50", "007", "0.30000000000000004", "1.7976931348623157", "2.5", "0.25",
        "0.125", "123456789.123456789", "3.141592653589793238462643383279",
    ] {
        agrees(text);
    }
}

#[test]
fn ties_go_to_the_even_neighbour() {
    // 2^53 + 1 lies half way between two doubles
    agrees("9007199254740992");
    agrees("9007199254740993");
    agrees("9007199254740994");
    agrees("9007199254740995");
    agrees("9007199254740996");
    assert_eq!(
        numeral_bits_of("9007199254740993"),
        numeral_bits_of("9007199254740992")
    );
    assert_eq!(
        numeral_bits_of("9007199254740995"),
        numeral_bits_of("9007199254740996")
    );
    // a little above the half goes up
    agrees("9007199254740993.0000000000000000000000000000000000000001");
    assert_eq!(
        numeral_bits_of("9007199254740993.0000000000000000000000000000000000000001"),
        numeral_bits_of("9007199254740994")
    );
    // 1 + 2^-53, half way between 1 and its neighbour
    agrees("1.00000000000000011102230246251565404236316680908203125");
    agrees("1.00000000000000011102230246251565404236316680908203124");
    agrees("1.00000000000000011102230246251565404236316680908203126");
    agrees("1.00000000000000033306690738754696212708950042724609375");
}

#[test]
fn large_numerals_reach_infinity() {
    let max = format!("17976931348623157{}", "0".repeat(292));
    agrees(&max);
    assert_eq!(numeral_bits_of(&max), Some(0x7FEF_FFFF_FFFF_FFFF));

    // the half way point between the largest double and 2^1024, and its
    // two neighbours among the integers
    let half = "179769313486231580793728971405303415079934132710037826936173778980444968292764750946649017977587207096330286416692887910946555547851940402630657488671505820681908902000708383676273854845817711531764475730270069855571366959622842914819860834936475292719074168444365510704342711559699508093042880177904174497792";
    agrees(half);
    let mut above = String::from(half);
    above.pop();
    above.push('3');
    let mut below = String::from(half);
    below.pop();
    below.push('1');
    agrees(&above);
    agrees(&below);
    assert_eq!(numeral_bits_of(half), Some(INFINITY_BITS));
    assert_eq!(numeral_bits_of(&below), Some(0x7FEF_FFFF_FFFF_FFFF));

    let huge = format!("1{}", "0".repeat(309));
    agrees(&huge);
    assert_eq!(numeral_bits_of(&huge), Some(INFINITY_BITS));
    let very_huge = format!("9{}.5", "9".repeat(2000));
    agrees(&very_huge);
    assert_eq!(numeral_bits_of(&very_huge), Some(INFINITY_BITS));
}

#[test]
fn small_numerals_reach_the_subnormals_and_zero() {
    let least = format!("0.{}49406564584124654", "0".repeat(323));
    agrees(&least);
    assert_eq!(numeral_bits_of(&least), Some(1));
    // below half of the least subnormal
    let lost = format!("0.{}2", "0".repeat(323));
    agrees(&lost);
    assert_eq!(numeral_bits_of(&lost), Some(0));
    // just above half of it
    let kept = format!("0.{}25", "0".repeat(323));
    agrees(&kept);
    assert_eq!(numeral_bits_of(&kept), Some(1));
    let tiny = format!("0.{}1", "0".repeat(1000));
    agrees(&tiny);
    assert_eq!(numeral_bits_of(&tiny), Some(0));
    // the least normal number and its neighbours
    agrees(&format!("0.{}22250738585072014", "0".repeat(307)));
    agrees(&format!("0.{}22250738585072011", "0".repeat(307)));
    agrees(&format!("0.{}22250738585072009", "0".repeat(307)));
    assert_eq!(
        numeral_bits_of(&format!("0.{}22250738585072014", "0".repeat(307))),
        Some(0x0010_0000_0000_0000)
    );
}

#[test]
fn agrees_with_the_standard_library_on_many_numerals() {
    let mut dice = Dice(2024);
    for _ in 0..3000 {
        let whole_len = 1 + dice.roll(25);
        let mut text = if dice.roll(3) == 0 {
            "0".repeat(whole_len as usize)
        } else {
            dice.digits(whole_len)
        };
        let frac_len = [0, 0, 1, 3, 10, 20, 40, 330, 400][dice.roll(9) as usize];
        if frac_len > 0 {
            let zeros = dice.roll(frac_len + 1);
            text.push('.');
            text.push_str(&"0".repeat(zeros as usize));
            text.push_str(&dice.digits(frac_len - zeros));
        }
        agrees(&text);
    }
}

#[test]
fn agrees_with_the_standard_library_near_the_largest_double() {
    let mut dice = Dice(7);
    for _ in 0..300 {
        let len = 300 + dice.roll(20);
        agrees(&dice.digits(len));
    }
}

#[test]
fn the_order_of_the_bits_is_the_order_of_the_numbers() {
    let ascending = [
        "0",
        "0.0000000001",
        "0.1",
        "0.5",
        "1",
        "1.5",
        "2",
        "9.99",
        "10",
        "1000000",
        "9007199254740992",
        "9007199254740994",
    ];
    for pair in ascending.windows(2) {
        assert!(numeral_bits_of(pair[0]).unwrap() < numeral_bits_of(pair[1]).unwrap());
    }
}
