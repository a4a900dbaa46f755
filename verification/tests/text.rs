use sentinel::text::{
    chars_of, is_whitespace, parse_decimal, push_decimal, spells, split_tokens, trim_bounds,
};

fn chars(s: &str) -> Vec<char> {
    s.chars().collect()
}

fn tokens(s: &str) -> Vec<String> {
    split_tokens(&chars(s)).into_iter().map(|w| w.into_iter().collect()).collect()
}

fn decimal(n: u32) -> String {
    let mut out = String::new();
    push_decimal(&mut out, n);
    out
}

fn trimmed(s: &str) -> String {
    let all = chars(s);
    let (start, end) = trim_bounds(&all);
    all[start..end].iter().collect()
}

const SAMPLES: [&str; 22] = [
    "",
    " ",
    "ls",
    "  ls  ",
    "HELLO 5",
    "HELLO  5",
    "\tHELLO\t5\r",
    "HELLO 5 6",
    " a  b   c ",
    "a",
    " a",
    "a ",
    "\n",
    "shutdown\n",
    "HELLO\u{a0}5",
    "\u{2003}x\u{3000}y\u{85}",
    "x\u{200b}y",
    "\u{1680}\u{2028}\u{2029}\u{202f}\u{205f}",
    "foo bar",
    "ünï cödé",
    "   ",
    "a\u{b}b\u{c}c",
];

#[test]
fn whitespace_is_what_std_calls_whitespace() {
    let mut count = 0;
    for code in 0..=0x10FFFFu32 {
        if let Some(c) = char::from_u32(code) {
            assert_eq!(is_whitespace(c), c.is_whitespace(), "U+{:04X}", code);
            if is_whitespace(c) {
                count += 1;
            }
        }
    }
    assert_eq!(count, 25);
}

#[test]
fn chars_of_gives_every_character() {
    assert_eq!(chars_of(""), Vec::<char>::new());
    assert_eq!(chars_of("a — b"), vec!['a', ' ', '—', ' ', 'b']);
    for s in SAMPLES {
        assert_eq!(chars_of(s), chars(s));
    }
}

#[test]
fn spells_compares_whole_words() {
    assert!(spells(&chars("HELLO"), "HELLO"));
    assert!(!spells(&chars("HELLO"), "HELL"));
    assert!(!spells(&chars("HELL"), "HELLO"));
    assert!(!spells(&chars("HELLo"), "HELLO"));
    assert!(!spells(&chars("hello"), "HELLO"));
    assert!(spells(&chars(""), ""));
    assert!(!spells(&chars(""), "x"));
}

#[test]
fn tokens_are_the_runs_between_whitespace() {
    assert_eq!(tokens("HELLO 5"), vec!["HELLO", "5"]);
    assert_eq!(tokens("  HELLO \t 5 \r"), vec!["HELLO", "5"]);
    assert_eq!(tokens(""), Vec::<String>::new());
    assert_eq!(tokens(" \t\n"), Vec::<String>::new());
    assert_eq!(tokens("one"), vec!["one"]);
    assert_eq!(tokens("a b c d"), vec!["a", "b", "c", "d"]);
    for s in SAMPLES {
        let wanted: Vec<String> = s.split_whitespace().map(|w| w.to_string()).collect();
        assert_eq!(tokens(s), wanted, "{:?}", s);
    }
}

#[test]
fn trim_bounds_cut_whitespace_at_both_ends() {
    assert_eq!(trimmed("  ls \n"), "ls");
    assert_eq!(trimmed("ls"), "ls");
    assert_eq!(trimmed("   "), "");
    assert_eq!(trimmed(""), "");
    assert_eq!(trimmed(" a b "), "a b");
    assert_eq!(trim_bounds(&chars("  ab ")), (2, 4));
    assert_eq!(trim_bounds(&chars("    ")), (4, 4));
    for s in SAMPLES {
        assert_eq!(trimmed(s), s.trim(), "{:?}", s);
    }
}

#[test]
fn parse_decimal_reads_32_bit_numbers() {
    assert_eq!(parse_decimal(&chars("0")), Some(0));
    assert_eq!(parse_decimal(&chars("5")), Some(5));
    assert_eq!(parse_decimal(&chars("007")), Some(7));
    assert_eq!(parse_decimal(&chars("+7")), Some(7));
    assert_eq!(parse_decimal(&chars("4294967295")), Some(4294967295));
    assert_eq!(parse_decimal(&chars("4294967296")), None);
    assert_eq!(parse_decimal(&chars("42949672950")), None);
    assert_eq!(parse_decimal(&chars("99999999999999999999999")), None);
    assert_eq!(parse_decimal(&chars("")), None);
    assert_eq!(parse_decimal(&chars("+")), None);
    assert_eq!(parse_decimal(&chars("-")), None);
    assert_eq!(parse_decimal(&chars("-7")), None);
    assert_eq!(parse_decimal(&chars("++7")), None);
    assert_eq!(parse_decimal(&chars("7+")), None);
    assert_eq!(parse_decimal(&chars("12a")), None);
    assert_eq!(parse_decimal(&chars("a12")), None);
    assert_eq!(parse_decimal(&chars("1 2")), None);
    assert_eq!(parse_decimal(&chars("0x10")), None);
    assert_eq!(parse_decimal(&chars("١٢")), None);
}

#[test]
fn parse_decimal_agrees_with_std() {
    let words = [
        "0", "1", "9", "10", "00", "+0", "+00012", "4294967295", "4294967296", "4294967300",
        "5000000000", "429496729", "42949672955", "", "+", "-", "-0", "-1", "1-", "1.0", "1e3",
        " 1", "1 ", "٣", "１２", "abc", "+-1", "0000000000000000000000001",
        "00000000004294967295", "00000000004294967296",
    ];
    for w in words {
        assert_eq!(parse_decimal(&chars(w)), w.parse::<u32>().ok(), "{:?}", w);
    }
}

#[test]
fn push_decimal_writes_base_ten() {
    assert_eq!(decimal(0), "0");
    assert_eq!(decimal(7), "7");
    assert_eq!(decimal(10), "10");
    assert_eq!(decimal(1234567890), "1234567890");
    assert_eq!(decimal(u32::MAX), "4294967295");
    let mut out = String::from("Node ");
    push_decimal(&mut out, 42);
    assert_eq!(out, "Node 42");
}

#[test]
fn push_decimal_agrees_with_std_and_reads_back() {
    let mut n: u32 = 1;
    for _ in 0..5000 {
        n = n.wrapping_mul(2654435761).wrapping_add(97);
        for candidate in [n, n % 1000, n % 10, n / 7] {
            let written = decimal(candidate);
            assert_eq!(written, candidate.to_string());
            assert_eq!(parse_decimal(&chars(&written)), Some(candidate));
        }
    }
}
