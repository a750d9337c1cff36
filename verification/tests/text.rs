use rwatch::text::{chars_of, field_spans, line_spans, parse_u64_span, trim_span};

fn parse(s: &str) -> Option<u64> {
    let text = chars_of(s);
    parse_u64_span(&text, 0, text.len())
}

fn pieces(text: &Vec<char>, spans: &[(usize, usize)]) -> Vec<String> {
    spans.iter().map(|&(a, b)| text[a..b].iter().collect()).collect()
}

#[test]
fn parses_unsigned_decimals_like_std() {
    assert_eq!(parse("0"), Some(0));
    assert_eq!(parse("1331458466"), Some(1_331_458_466));
    assert_eq!(parse("+12"), Some(12));
    assert_eq!(parse("18446744073709551615"), Some(u64::MAX));
    assert_eq!(parse("18446744073709551616"), None);
    assert_eq!(parse(""), None);
    assert_eq!(parse("+"), None);
    assert_eq!(parse("-1"), None);
    assert_eq!(parse("1a"), None);
    for s in ["7", "+7", "-7", "", "x", "99999999999999999999"] {
        assert_eq!(parse(s), s.parse::<u64>().ok());
    }
}

#[test]
fn fields_match_split_whitespace() {
    for s in ["", "  a b\tc  ", "one", "x\u{3000}y\u{a0}z", " \n "] {
        let text = chars_of(s);
        let spans = field_spans(&text, 0, text.len());
        let expected: Vec<String> = s.split_whitespace().map(|w| w.to_string()).collect();
        assert_eq!(pieces(&text, &spans), expected);
    }
}

#[test]
fn lines_match_str_lines() {
    for s in ["", "a", "a\n", "a\r\nb", "a\rb\r", "\n\n", "x\r\n\r\ny\n"] {
        let text = chars_of(s);
        let spans = line_spans(&text);
        let expected: Vec<String> = s.lines().map(|l| l.to_string()).collect();
        assert_eq!(pieces(&text, &spans), expected);
    }
}

#[test]
fn trim_matches_str_trim() {
    for s in ["", "  lo ", "\tlo\n", "l o", "   "] {
        let text = chars_of(s);
        let (a, b) = trim_span(&text, 0, text.len());
        assert_eq!(text[a..b].iter().collect::<String>(), s.trim());
    }
}

#[test]
fn field_spans_are_maximal_runs_in_order() {
    let text = chars_of("xx  ab\tc d  yy");
    let spans = field_spans(&text, 2, 12);
    assert_eq!(spans, vec![(4, 6), (7, 8), (9, 10)]);
    let spans = field_spans(&text, 1, 5);
    assert_eq!(spans, vec![(1, 2), (4, 5)]);
}

#[test]
fn line_spans_follow_line_endings() {
    let text = chars_of("ab\r\nc\n\nd");
    assert_eq!(line_spans(&text), vec![(0, 2), (4, 5), (6, 6), (7, 8)]);
    let text = chars_of("ab\n");
    assert_eq!(line_spans(&text), vec![(0, 2)]);
    let text = chars_of("");
    assert_eq!(line_spans(&text), vec![]);
}
