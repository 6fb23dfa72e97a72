use combo_gen::text::{byte_unit, format_number, is_white_space, parse_checkpoint, ByteUnit};

#[test]
fn checkpoint_text_reads_a_decimal_number() {
    assert_eq!(parse_checkpoint("42"), 42);
    assert_eq!(parse_checkpoint("  42\n"), 42);
    assert_eq!(parse_checkpoint("+7"), 7);
    assert_eq!(parse_checkpoint("007"), 7);
    assert_eq!(parse_checkpoint("\u{3000}5\u{a0}"), 5);
    assert_eq!(parse_checkpoint("18446744073709551615"), u64::MAX);
}

#[test]
fn unreadable_checkpoint_text_reads_as_zero() {
    assert_eq!(parse_checkpoint(""), 0);
    assert_eq!(parse_checkpoint("   "), 0);
    assert_eq!(parse_checkpoint("abc"), 0);
    assert_eq!(parse_checkpoint("+"), 0);
    assert_eq!(parse_checkpoint("-1"), 0);
    assert_eq!(parse_checkpoint("1 2"), 0);
    assert_eq!(parse_checkpoint("12x"), 0);
    assert_eq!(parse_checkpoint("18446744073709551616"), 0);
    assert_eq!(parse_checkpoint("99999999999999999999x"), 0);
}

#[test]
fn checkpoint_text_agrees_with_std() {
    for s in ["0", " 10 ", "+", "++1", "1_000", "\t\n123\r\n", "٣", "12345678901234567890"] {
        let expected = s.trim().parse::<u64>().unwrap_or(0);
        assert_eq!(parse_checkpoint(s), expected, "{:?}", s);
    }
}

#[test]
fn white_space_matches_std() {
    for c in ['\t', '\n', ' ', '\u{85}', '\u{a0}', '\u{2003}', '\u{3000}', 'a', '0', '\u{200b}'] {
        assert_eq!(is_white_space(c), c.is_whitespace(), "{:?}", c);
    }
}

#[test]
fn numbers_are_grouped_by_thousands() {
    assert_eq!(format_number(0), "0");
    assert_eq!(format_number(7), "7");
    assert_eq!(format_number(999), "999");
    assert_eq!(format_number(1000), "1,000");
    assert_eq!(format_number(123456), "123,456");
    assert_eq!(format_number(1234567), "1,234,567");
    assert_eq!(format_number(u64::MAX), "18,446,744,073,709,551,615");
}

#[test]
fn byte_units_by_size() {
    assert_eq!(byte_unit(0), ByteUnit::B);
    assert_eq!(byte_unit(1023), ByteUnit::B);
    assert_eq!(byte_unit(1024), ByteUnit::KB);
    assert_eq!(byte_unit(1024 * 1024 - 1), ByteUnit::KB);
    assert_eq!(byte_unit(1024 * 1024), ByteUnit::MB);
    assert_eq!(byte_unit(1 << 30), ByteUnit::GB);
    assert_eq!(byte_unit(1 << 40), ByteUnit::TB);
    assert_eq!(byte_unit(u64::MAX), ByteUnit::TB);
}

#[test]
fn byte_unit_scales_and_labels() {
    assert_eq!(ByteUnit::B.scale(), 1);
    assert_eq!(ByteUnit::KB.scale(), 1024);
    assert_eq!(ByteUnit::MB.scale(), 1 << 20);
    assert_eq!(ByteUnit::GB.scale(), 1 << 30);
    assert_eq!(ByteUnit::TB.scale(), 1 << 40);
    assert_eq!(ByteUnit::B.label(), "B");
    assert_eq!(ByteUnit::KB.label(), "KB");
    assert_eq!(ByteUnit::TB.label(), "TB");
}
