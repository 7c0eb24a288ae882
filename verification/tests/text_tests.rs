use telemetry_ingest::text::{
    byte_length, decimal_text, is_white_space, parse_bool, parse_unsigned, same_text,
    sorts_before, trim,
};

#[test]
fn white_space_is_the_unicode_property() {
    for u in 0..=0x0010_ffff {
        if let Some(c) = char::from_u32(u) {
            assert_eq!(is_white_space(c), c.is_whitespace());
        }
    }
}

#[test]
fn trimming_agrees_with_the_standard_library() {
    for raw in [
        "",
        " ",
        "a",
        " a",
        "a ",
        "\t a b \n",
        "\u{a0}\u{3000}x\u{2028}",
        "\u{200b}x\u{200b}",
        "  \u{e9}\u{20ac}  ",
    ] {
        assert_eq!(trim(raw), (raw.trim(), raw.chars().count()));
    }
}

#[test]
fn numbers_are_written_in_decimal() {
    for n in [0, 7, 10, 65, 100, 1001, 131_072, usize::MAX] {
        assert_eq!(decimal_text(n), n.to_string());
    }
}

#[test]
fn numbers_are_read_as_the_standard_library_does() {
    for raw in [
        "", "+", "-1", "-0", "0", "00", "+7", "7+", "++7", "255", "256", "1 ", " 1", "1_0", "1e3",
        "\u{661}", "99999999999999999999", "18446744073709551615", "18446744073709551616",
    ] {
        assert_eq!(parse_unsigned(raw, 255), raw.parse::<u8>().ok().map(u64::from));
        assert_eq!(parse_unsigned(raw, u64::MAX), raw.parse::<u64>().ok());
    }
}

#[test]
fn booleans_are_spelled_out() {
    for raw in ["true", "false", "True", "1", "", " true"] {
        assert_eq!(parse_bool(raw), raw.parse::<bool>().ok());
    }
}

#[test]
fn strings_order_by_their_bytes() {
    let samples = ["", "a", "aa", "b", "s-1", "s-10", "s-2", "\u{e9}", "z", "\u{ffff}", "\u{10000}"];
    for a in samples {
        assert_eq!(byte_length(a), a.len());
        for b in samples {
            assert_eq!(sorts_before(a, b), a < b);
            assert_eq!(same_text(a, b), a == b);
        }
    }
}
