use fashion_mnist_rust::text::{parse_usize, push_decimal, span_equals, split_commas, split_lines, split_tokens, whitespace_len};

fn pieces<'a>(s: &'a str, spans: &[(usize, usize)]) -> Vec<&'a str> {
    spans.iter().map(|&(a, b)| &s[a..b]).collect()
}

const SAMPLES: [&str; 12] = [
    "",
    "\n",
    "a",
    "a\nb",
    "a\nb\n",
    "a\r\nb\r\n",
    "a\r\r\nb",
    "\r",
    "x\n\n\ny",
    "  lead\ttab \u{a0}nbsp\u{2003}em\u{3000} ",
    "one,two,,three,",
    "é,ü\n\u{2028}z",
];

#[test]
fn lines_agree_with_std() {
    for s in SAMPLES {
        let spans = split_lines(s.as_bytes());
        assert_eq!(pieces(s, &spans), s.lines().collect::<Vec<_>>(), "{:?}", s);
    }
}

#[test]
fn tokens_agree_with_split_whitespace() {
    for s in SAMPLES {
        let spans = split_tokens(s.as_bytes(), 0, s.len());
        assert_eq!(pieces(s, &spans), s.split_whitespace().collect::<Vec<_>>(), "{:?}", s);
    }
}

#[test]
fn commas_agree_with_split() {
    for s in SAMPLES {
        let spans = split_commas(s.as_bytes(), 0, s.len());
        assert_eq!(pieces(s, &spans), s.split(',').collect::<Vec<_>>(), "{:?}", s);
    }
}

#[test]
fn numbers_agree_with_std_parse() {
    let cases = [
        "0", "7", "+7", "-7", "", "+", "12a", " 1", "007", "18446744073709551615",
        "18446744073709551616", "99999999999999999999999", "+0", "1_000",
    ];
    for s in cases {
        assert_eq!(parse_usize(s.as_bytes(), 0, s.len()), s.parse::<usize>().ok(), "{:?}", s);
    }
    assert_eq!(parse_usize(b"ab123cd", 2, 5), Some(123));
}

#[test]
fn decimals_agree_with_to_string() {
    for v in [0usize, 1, 9, 10, 42, 785, 1000000, usize::MAX] {
        let mut out = b"x=".to_vec();
        push_decimal(&mut out, v);
        assert_eq!(out, format!("x={}", v).into_bytes());
    }
}

#[test]
fn whitespace_widths() {
    let s = " \u{a0}\u{2003}a".as_bytes();
    assert_eq!(whitespace_len(s, 0, s.len()), 1);
    assert_eq!(whitespace_len(s, 1, s.len()), 2);
    assert_eq!(whitespace_len(s, 3, s.len()), 3);
    assert_eq!(whitespace_len(s, 6, s.len()), 0);
    assert!(span_equals(b"xLAYERy", 1, 6, &b"LAYER".to_vec()));
    assert!(!span_equals(b"xLAYERy", 1, 7, &b"LAYER".to_vec()));
}
