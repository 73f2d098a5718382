use explorer_core::greet;
use explorer_core::text::chars_le;
use explorer_core::text::chars_of;
use explorer_core::text::is_white_space;
use explorer_core::text::render_decimal;
use explorer_core::text::trim_text;

fn chars(text: &str) -> Vec<char> {
    text.chars().collect()
}

#[test]
fn the_greeting_names_the_caller() {
    assert_eq!(greet("Ada"), "Hello, Ada! You've been greeted from Rust!");
    assert_eq!(greet(""), "Hello, ! You've been greeted from Rust!");
}

#[test]
fn numbers_are_written_in_base_ten() {
    assert_eq!(render_decimal(0), "0");
    assert_eq!(render_decimal(7), "7");
    assert_eq!(render_decimal(9), "9");
    assert_eq!(render_decimal(10), "10");
    assert_eq!(render_decimal(42), "42");
    assert_eq!(render_decimal(1005), "1005");
    assert_eq!(render_decimal(1234567890), "1234567890");
    assert_eq!(render_decimal(u32::MAX), "4294967295");
}

#[test]
fn decimal_rendering_agrees_with_the_standard_one() {
    let mut n: u32 = 1;
    for _ in 0..400 {
        assert_eq!(render_decimal(n), n.to_string());
        n = n.wrapping_mul(1664525).wrapping_add(1013904223);
    }
}

#[test]
fn trimming_cuts_both_ends_and_nothing_between() {
    assert_eq!(trim_text("  a b  "), "a b");
    assert_eq!(trim_text("\t\r\n x \n"), "x");
    assert_eq!(trim_text("x"), "x");
    assert_eq!(trim_text("x  "), "x");
    assert_eq!(trim_text("  x"), "x");
    assert_eq!(trim_text("a \n b"), "a \n b");
}

#[test]
fn trimming_white_space_leaves_nothing() {
    assert_eq!(trim_text(""), "");
    assert_eq!(trim_text(" "), "");
    assert_eq!(trim_text(" \t\n\r "), "");
}

#[test]
fn trimming_knows_white_space_beyond_ascii() {
    assert_eq!(trim_text("\u{00a0}\u{3000}päth\u{2003}\u{2028}"), "päth");
    assert_eq!(trim_text("\u{200b}x\u{200b}"), "\u{200b}x\u{200b}");
}

#[test]
fn white_space_is_what_the_standard_library_takes_it_to_be() {
    let mut count = 0;
    for code in 0..=0x10ffff_u32 {
        if let Some(c) = char::from_u32(code) {
            assert_eq!(is_white_space(c), c.is_whitespace(), "U+{:04X}", code);
            if is_white_space(c) {
                count += 1;
            }
        }
    }
    assert_eq!(count, 25);
}

#[test]
fn white_space_by_example() {
    for c in [' ', '\t', '\n', '\r', '\u{0b}', '\u{0c}', '\u{85}', '\u{a0}', '\u{3000}'] {
        assert!(is_white_space(c));
    }
    for c in ['a', '0', '_', '\u{08}', '\u{0e}', '\u{200b}', '\u{180e}', '\u{feff}'] {
        assert!(!is_white_space(c));
    }
}

#[test]
fn trimming_agrees_with_the_standard_one() {
    let samples = [
        "", " ", "a", " a", "a ", "  a  b  ", "\n\n", "\u{feff} x ", " \u{1680}é\u{205f} ",
        "tab\t", "\u{0085}nel\u{0085}", "  世界  ",
    ];
    for sample in samples {
        assert_eq!(trim_text(sample), sample.trim());
    }
}

#[test]
fn texts_compare_character_by_character() {
    assert!(chars_le(&chars(""), &chars("")));
    assert!(chars_le(&chars(""), &chars("a")));
    assert!(!chars_le(&chars("a"), &chars("")));
    assert!(chars_le(&chars("abc"), &chars("abd")));
    assert!(!chars_le(&chars("abd"), &chars("abc")));
    assert!(chars_le(&chars("ab"), &chars("abc")));
    assert!(!chars_le(&chars("abc"), &chars("ab")));
    assert!(chars_le(&chars("same"), &chars("same")));
    assert!(chars_le(&chars("Z"), &chars("a")));
    assert!(chars_le(&chars("z"), &chars("é")));
    assert!(chars_le(&chars("\u{ffff}"), &chars("\u{10000}")));
}

#[test]
fn text_order_agrees_with_the_standard_one() {
    let samples = ["", "a", "A", "ab", "abc", "b", "é", "z", "世", "\u{10348}", "a\u{10348}"];
    for x in samples {
        for y in samples {
            assert_eq!(chars_le(&chars(x), &chars(y)), x <= y);
        }
    }
}

#[test]
fn a_text_is_its_characters() {
    assert_eq!(chars_of(""), Vec::<char>::new());
    assert_eq!(chars_of("aé世"), vec!['a', 'é', '世']);
}
