use nd_renderer::text::{
    parse_i32_in, parse_isize_in, parse_u32_in, parse_usize_in, split_lines, split_spaces,
};

fn usize_of(s: &str) -> Option<usize> {
    parse_usize_in(s.as_bytes(), 0, s.len())
}

#[test]
fn lines_follow_str_lines() {
    let texts = ["", "a", "a\n", "a\r\nb\n", "\n\nx", "a\r", "a\rb\r\n", "\r\n"];
    for text in texts {
        let spans = split_lines(text.as_bytes());
        let ours: Vec<&str> = spans.iter().map(|&(a, b)| &text[a..b]).collect();
        let std_lines: Vec<&str> = text.lines().collect();
        assert_eq!(ours, std_lines, "text {:?}", text);
    }
}

#[test]
fn lines_of_crlf_text() {
    assert_eq!(split_lines(b"a\r\nb\n"), vec![(0, 1), (3, 4)]);
}

#[test]
fn spaces_split_like_str_split() {
    let texts = ["", "1 2 3", " 1  2 ", "abc", "  "];
    for text in texts {
        let spans = split_spaces(text.as_bytes(), 0, text.len());
        let ours: Vec<&str> = spans.iter().map(|&(a, b)| &text[a..b]).collect();
        let std_pieces: Vec<&str> = text.split(' ').collect();
        assert_eq!(ours, std_pieces, "text {:?}", text);
    }
}

#[test]
fn unsigned_parsing_matches_std() {
    let cases = [
        "0", "42", "+7", "-7", "", "+", "1 ", "007", "18446744073709551615",
        "18446744073709551616", "4294967295", "4294967296", "3.5", "x",
    ];
    for c in cases {
        assert_eq!(usize_of(c), c.parse::<usize>().ok(), "usize {:?}", c);
        assert_eq!(
            parse_u32_in(c.as_bytes(), 0, c.len()),
            c.parse::<u32>().ok(),
            "u32 {:?}",
            c
        );
    }
}

#[test]
fn signed_parsing_matches_std() {
    let cases = [
        "0", "-0", "-1", "+1", "-", "+", "--1", "2147483647", "2147483648", "-2147483648",
        "-2147483649", "9223372036854775807", "9223372036854775808", "-9223372036854775808",
        "-9223372036854775809", "12a",
    ];
    for c in cases {
        assert_eq!(
            parse_i32_in(c.as_bytes(), 0, c.len()),
            c.parse::<i32>().ok(),
            "i32 {:?}",
            c
        );
        assert_eq!(
            parse_isize_in(c.as_bytes(), 0, c.len()),
            c.parse::<isize>().ok(),
            "isize {:?}",
            c
        );
    }
}

#[test]
fn parsing_a_piece_of_a_longer_text() {
    let text = b"3 12 -4";
    assert_eq!(parse_usize_in(text, 2, 4), Some(12));
    assert_eq!(parse_i32_in(text, 5, 7), Some(-4));
    assert_eq!(parse_usize_in(text, 5, 7), None);
}
