use inference_sim::text::{
    append_decimal, chars_of, comes_before, decimal, hex, join_text, parse_usize, same_text,
    split_lines, string_of, tail_after, trim, white_space,
};

#[test]
fn trim_agrees_with_the_standard_library() {
    for text in [
        "",
        "  ",
        "a",
        " a b ",
        "\t\r\na\n",
        "\u{a0}x\u{3000}",
        "\u{2028}\u{85}y z\u{1680}",
        "\u{200b}kept\u{feff}",
        "\u{1c}kept\u{1f}",
    ] {
        assert_eq!(trim(text), text.trim(), "{text:?}");
    }
}

#[test]
fn white_space_agrees_with_the_standard_library() {
    for code in 0..0x11000u32 {
        if let Some(c) = char::from_u32(code) {
            assert_eq!(white_space(c), c.is_whitespace(), "{code:x}");
        }
    }
}

#[test]
fn split_lines_agrees_with_the_standard_library() {
    for text in ["", "a", "a\n", "a\r\nb", "\n\n", "a\n\r\n\rb\r", "x\ny\r\n\nz"] {
        let expected: Vec<String> = text.lines().map(String::from).collect();
        assert_eq!(split_lines(text), expected, "{text:?}");
    }
}

#[test]
fn decimals_are_written_without_leading_zeros() {
    for n in [0u64, 7, 10, 4096, u64::MAX] {
        assert_eq!(decimal(n), n.to_string());
    }
    let mut text = String::from("n=");
    append_decimal(&mut text, 120);
    assert_eq!(text, "n=120");
}

#[test]
fn usize_parsing_agrees_with_the_standard_library() {
    for text in [
        "", "+", "-", "0", "007", "+12", "-3", "12a", " 1", "18446744073709551615",
        "18446744073709551616", "99999999999999999999999",
    ] {
        assert_eq!(parse_usize(text), text.parse::<usize>().ok(), "{text:?}");
    }
}

#[test]
fn the_tail_follows_the_last_mark() {
    assert_eq!(tail_after("replay-1-23", '-'), "23");
    assert_eq!(tail_after("plain", '-'), "plain");
    assert_eq!(tail_after("end-", '-'), "");
}

#[test]
fn texts_are_compared_by_their_characters() {
    assert!(same_text("", ""));
    assert!(same_text("héllo", "héllo"));
    assert!(!same_text("abc", "abd"));
    assert!(!same_text("abc", "ab"));
}

#[test]
fn parts_are_cut_by_characters() {
    let chars = chars_of("héllo");
    assert_eq!(chars.len(), 5);
    assert_eq!(string_of(&chars, 1, 3), "él");
    assert_eq!(string_of(&chars, 2, 2), "");
}

#[test]
fn hex_writes_the_high_half_first() {
    assert_eq!(hex(&vec![0x00, 0x0f, 0xa0, 0xff]), "000fa0ff");
    assert_eq!(hex(&Vec::new()), "");
}

#[test]
fn texts_are_ordered_as_in_the_standard_library() {
    let texts = ["", "a", "ab", "b", "B", "é", "z", "\u{ffff}", "\u{10000}", "a\u{0}"];
    for a in texts {
        for b in texts {
            assert_eq!(comes_before(a, b), a < b, "{a:?} {b:?}");
        }
    }
}

#[test]
fn joining_keeps_a_list_ascending_and_distinct() {
    let mut list = Vec::new();
    for text in ["m", "c", "z", "c", "", "m", "d"] {
        join_text(&mut list, text.to_string());
    }
    assert_eq!(list, vec!["", "c", "d", "m", "z"]);
}
