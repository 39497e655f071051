use cifir::decode::{decode, parse_hex_color, parse_resolution, DecodeError};

fn lines(v: &[&str]) -> Vec<String> {
    v.iter().map(|s| s.to_string()).collect()
}

fn chars(s: &str) -> Vec<char> {
    s.chars().collect()
}

#[test]
fn resolution_plain() {
    assert_eq!(parse_resolution("<2x1>"), Some((2, 1)));
    assert_eq!(parse_resolution("<640x480>"), Some((640, 480)));
}

#[test]
fn resolution_embedded_anywhere() {
    assert_eq!(parse_resolution("CIF image <12x34> follows"), Some((12, 34)));
    assert_eq!(parse_resolution("a<1x2>b<3x4>"), Some((1, 2)));
}

#[test]
fn resolution_zero_is_accepted() {
    assert_eq!(parse_resolution("<0x0>"), Some((0, 0)));
}

#[test]
fn resolution_missing_or_malformed() {
    assert_eq!(parse_resolution("no header here"), None);
    assert_eq!(parse_resolution("<12x34x56>"), None);
    assert_eq!(parse_resolution("<12 x 34>"), None);
    assert_eq!(parse_resolution("<x34>"), None);
    assert_eq!(parse_resolution("<12x>"), None);
    assert_eq!(parse_resolution("12x34"), None);
}

#[test]
fn resolution_overflow_fails() {
    assert_eq!(parse_resolution("<99999999999x1>"), None);
    assert_eq!(parse_resolution("<1x4294967296>"), None);
    assert_eq!(parse_resolution("<4294967295x1>"), Some((4294967295, 1)));
    assert_eq!(parse_resolution("<00000000001x1>"), Some((1, 1)));
}

#[test]
fn hex_color_basic() {
    assert_eq!(parse_hex_color("ff0000"), Some((0xff, 0x00, 0x00)));
    assert_eq!(parse_hex_color("00ff00"), Some((0x00, 0xff, 0x00)));
    assert_eq!(parse_hex_color("abcdef"), Some((0xab, 0xcd, 0xef)));
}

#[test]
fn hex_color_case_insensitive() {
    assert_eq!(parse_hex_color("ABCDEF"), Some((0xab, 0xcd, 0xef)));
    assert_eq!(parse_hex_color("AbCdEf"), Some((0xab, 0xcd, 0xef)));
}

#[test]
fn hex_color_trims_whitespace() {
    assert_eq!(parse_hex_color(" ffffff "), Some((0xff, 0xff, 0xff)));
    assert_eq!(parse_hex_color("\tffffff\t"), Some((0xff, 0xff, 0xff)));
}

#[test]
fn hex_color_wrong_length_or_digit() {
    assert_eq!(parse_hex_color("fffff"), None);
    assert_eq!(parse_hex_color("fffffff"), None);
    assert_eq!(parse_hex_color("ffxx00"), None);
    assert_eq!(parse_hex_color(""), None);
    assert_eq!(parse_hex_color("+1+2+3"), None);
}

#[test]
fn decode_two_pixels() {
    let r = decode(&lines(&["<2x1>", "#ff0000#00ff00"])).unwrap();
    assert_eq!(r.width, 2);
    assert_eq!(r.height, 1);
    assert_eq!(r.pixels, vec![0xff0000, 0x00ff00]);
}

#[test]
fn decode_strips_comment_inside_token() {
    let r = decode(&lines(&["<1x1>", "#a<--x-->bcdef"])).unwrap();
    assert_eq!(r.pixels, vec![0xabcdef]);
}

#[test]
fn decode_strips_multiple_comments() {
    let r = decode(&lines(&["<1x1>", "#ab<--one-->cd<--two-->ef"])).unwrap();
    assert_eq!(r.pixels, vec![0xabcdef]);
}

#[test]
fn decode_comment_may_hide_a_hash() {
    let r = decode(&lines(&["<1x1>", "#ffff<--#00-->ff"])).unwrap();
    assert_eq!(r.pixels, vec![0xffffff]);
}

#[test]
fn decode_unclosed_comment_stays_and_breaks_the_token() {
    let r = decode(&lines(&["<1x1>", "#abcdef<--tail"]));
    match r {
        Err(DecodeError::InvalidColor { token }) => {
            assert_eq!(token, chars("abcdef<--tail"));
        }
        _ => panic!("expected an invalid color"),
    }
}

#[test]
fn decode_removes_every_space() {
    let r = decode(&lines(&["<2x1>", "# ff 00 aa #0 1 0 2 0 3"])).unwrap();
    assert_eq!(r.pixels, vec![0xff00aa, 0x010203]);
}

#[test]
fn decode_discards_text_before_first_hash() {
    let r = decode(&lines(&["<1x1>", "junk#ffffff"])).unwrap();
    assert_eq!(r.pixels, vec![0xffffff]);
}

#[test]
fn decode_line_without_hash_yields_nothing() {
    let r = decode(&lines(&["<1x1>", "just a remark", "#102030"])).unwrap();
    assert_eq!(r.pixels, vec![0x102030]);
}

#[test]
fn decode_no_lines_is_a_format_error() {
    assert!(matches!(decode(&lines(&[])), Err(DecodeError::Format)));
}

#[test]
fn decode_bad_header_is_a_format_error() {
    assert!(matches!(
        decode(&lines(&["nothing here", "#ffffff"])),
        Err(DecodeError::Format)
    ));
    assert!(matches!(
        decode(&lines(&["<99999999999x1>", "#ffffff"])),
        Err(DecodeError::Format)
    ));
}

#[test]
fn decode_short_token_is_an_invalid_color() {
    let r = decode(&lines(&["<1x1>", "#abcde"]));
    match r {
        Err(DecodeError::InvalidColor { token }) => assert_eq!(token, chars("abcde")),
        _ => panic!("expected an invalid color"),
    }
}

#[test]
fn decode_non_hex_token_is_an_invalid_color() {
    let r = decode(&lines(&["<1x1>", "#zzzzzz"]));
    match r {
        Err(DecodeError::InvalidColor { token }) => assert_eq!(token, chars("zzzzzz")),
        _ => panic!("expected an invalid color"),
    }
}

#[test]
fn decode_reports_the_first_bad_token() {
    let r = decode(&lines(&["<2x2>", "#ffffff#bad", "#cccccc#worse"]));
    match r {
        Err(DecodeError::InvalidColor { token }) => assert_eq!(token, chars("bad")),
        _ => panic!("expected an invalid color"),
    }
}

#[test]
fn decode_lone_hash_is_an_invalid_empty_token() {
    let r = decode(&lines(&["<1x1>", "#"]));
    match r {
        Err(DecodeError::InvalidColor { token }) => assert_eq!(token, chars("")),
        _ => panic!("expected an invalid color"),
    }
}

#[test]
fn decode_under_supply_is_accepted() {
    let r = decode(&lines(&["<2x2>", "#010203"])).unwrap();
    assert_eq!(r.width, 2);
    assert_eq!(r.height, 2);
    assert_eq!(r.pixels, vec![0x010203]);
}

#[test]
fn decode_over_supply_is_accepted() {
    let r = decode(&lines(&["<1x1>", "#010203#040506"])).unwrap();
    assert_eq!(r.pixels, vec![0x010203, 0x040506]);
}
