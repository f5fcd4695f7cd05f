use eight_puzzle::convert_str_to_int;
use eight_puzzle::text::{chars_of, decimal, number_of, parse_u32, spells, strip_white, trim, white};

fn chars(text: &str) -> Vec<char> {
    text.chars().collect()
}

#[test]
fn convert_reads_plain_numbers() {
    assert_eq!(convert_str_to_int("0"), 0);
    assert_eq!(convert_str_to_int("7"), 7);
    assert_eq!(convert_str_to_int("12"), 12);
    assert_eq!(convert_str_to_int("007"), 7);
    assert_eq!(convert_str_to_int("4294967295"), 4294967295);
}

#[test]
fn convert_trims_first() {
    assert_eq!(convert_str_to_int("  31 "), 31);
    assert_eq!(convert_str_to_int("\t5\n"), 5);
    assert_eq!(convert_str_to_int("\u{3000}8\u{a0}"), 8);
}

#[test]
fn convert_takes_one_plus_sign() {
    assert_eq!(convert_str_to_int("+5"), 5);
    assert_eq!(convert_str_to_int("++5"), 0);
    assert_eq!(convert_str_to_int("+"), 0);
    assert_eq!(convert_str_to_int("5+"), 0);
}

#[test]
fn convert_gives_zero_for_what_is_no_number() {
    assert_eq!(convert_str_to_int(""), 0);
    assert_eq!(convert_str_to_int("   "), 0);
    assert_eq!(convert_str_to_int("h2"), 0);
    assert_eq!(convert_str_to_int("-1"), 0);
    assert_eq!(convert_str_to_int("-0"), 0);
    assert_eq!(convert_str_to_int("1 2"), 0);
    assert_eq!(convert_str_to_int("1_000"), 0);
    assert_eq!(convert_str_to_int("12a"), 0);
    assert_eq!(convert_str_to_int("١٢"), 0);
}

#[test]
fn convert_gives_zero_for_what_does_not_fit() {
    assert_eq!(convert_str_to_int("4294967296"), 0);
    assert_eq!(convert_str_to_int("99999999999999999999999999"), 0);
    assert_eq!(convert_str_to_int("42949672950"), 0);
}

#[test]
fn convert_agrees_with_the_standard_parser() {
    let samples = [
        "0", "1", "42", " 42", "42 ", "+42", "-42", "4 2", "", "+", "0000", "4294967295",
        "4294967296", "18446744073709551616", "0x10", "１２", "12\u{85}", "\u{2003}77",
    ];
    for s in samples {
        let want: u32 = s.trim().parse().unwrap_or(0);
        assert_eq!(convert_str_to_int(s), want, "{:?}", s);
        assert_eq!(number_of(&chars(s)), want, "{:?}", s);
    }
}

#[test]
fn parse_tells_failure_from_zero() {
    assert_eq!(parse_u32(&chars("0")), Some(0));
    assert_eq!(parse_u32(&chars("+0")), Some(0));
    assert_eq!(parse_u32(&chars("")), None);
    assert_eq!(parse_u32(&chars(" 1")), None);
    assert_eq!(parse_u32(&chars("4294967295")), Some(4294967295));
    assert_eq!(parse_u32(&chars("4294967296")), None);
}

#[test]
fn trim_agrees_with_the_standard_trim() {
    let samples = [
        "", " ", "a", " a", "a ", "  a b  ", "\t\n\r a \u{b}\u{c}", "\u{85}x\u{a0}",
        "\u{1680}x\u{2000}", "\u{200a}x\u{2028}", "\u{2029}x\u{202f}", "\u{205f}x\u{3000}",
        "\u{200b}x\u{200b}", "\u{180e}x", "\u{feff}x", "x\u{1c}", "\u{2007} \u{2008}",
    ];
    for s in samples {
        let got: String = trim(&chars(s)).into_iter().collect();
        assert_eq!(got, s.trim(), "{:?}", s);
    }
}

#[test]
fn white_agrees_with_the_standard_test() {
    let mut u: u32 = 0;
    while u < 0x11_0000 {
        if let Some(c) = char::from_u32(u) {
            assert_eq!(white(c), c.is_whitespace(), "{:x}", u);
        }
        u += 1;
    }
}

#[test]
fn strip_white_takes_out_all_white_space() {
    let got: String = strip_white(&chars(" 1 2\t3 \n b\u{a0}")).into_iter().collect();
    assert_eq!(got, "123b");
    assert_eq!(strip_white(&chars("  \t ")), Vec::<char>::new());
    assert_eq!(strip_white(&chars("a_b")), chars("a_b"));
}

#[test]
fn chars_and_spelling() {
    assert_eq!(chars_of("a-ö"), vec!['a', '-', 'ö']);
    assert!(spells(&chars("beam"), "beam"));
    assert!(!spells(&chars("beam"), "bean"));
    assert!(!spells(&chars("beam"), "beams"));
    assert!(spells(&chars(""), ""));
}

#[test]
fn decimal_writes_numbers() {
    assert_eq!(decimal(0), "0");
    assert_eq!(decimal(9), "9");
    assert_eq!(decimal(10), "10");
    assert_eq!(decimal(31), "31");
    assert_eq!(decimal(1000), "1000");
    assert_eq!(decimal(4294967295), "4294967295");
    assert_eq!(decimal(usize::MAX), usize::MAX.to_string());
}
