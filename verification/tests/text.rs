//! Texts and numbers.

use gallery_accel::text::{
    chars_of, decimal_int_text, decimal_text, is_control, is_white_space, join_texts, read_i64,
    read_unsigned, split_chars, take_bytes, text_of, trim_text,
};

#[test]
fn white_space_is_that_of_unicode() {
    for code in 0u32..=0x10ffff {
        if let Some(c) = char::from_u32(code) {
            assert_eq!(is_white_space(c), c.is_whitespace(), "{code:x}");
            assert_eq!(is_control(c), c.is_control(), "{code:x}");
        }
    }
}

#[test]
fn trimming_and_splitting_agree_with_std() {
    for s in ["", " a ", "\u{3000}x\u{a0}", "a/b//c/", "no"] {
        assert_eq!(text_of(&trim_text(s)), s.trim());
        let want: Vec<String> = s.split('/').map(|p| p.to_string()).collect();
        assert_eq!(split_chars(&chars_of(s), '/'), want);
        assert_eq!(join_texts(&want, "/"), s);
    }
}

#[test]
fn numbers_are_read_as_std_reads_them() {
    for s in ["", "+", "-", "0", "007", "+5", "-5", "18446744073709551615", "18446744073709551616", "1x"] {
        assert_eq!(read_unsigned(&chars_of(s), u64::MAX), s.parse::<u64>().ok(), "{s}");
        assert_eq!(read_i64(&chars_of(s)), s.parse::<i64>().ok(), "{s}");
    }
    assert_eq!(read_i64(&chars_of("-9223372036854775808")), Some(i64::MIN));
    assert_eq!(read_unsigned(&chars_of("4294967296"), u32::MAX as u64), None);
}

#[test]
fn numbers_are_written_as_std_writes_them() {
    for n in [0u64, 9, 10, 12345, u64::MAX] {
        assert_eq!(decimal_text(n), n.to_string());
    }
    for n in [0i64, -1, i64::MIN, i64::MAX] {
        assert_eq!(decimal_int_text(n), n.to_string());
    }
}

#[test]
fn bytes_are_cut_at_character_boundaries() {
    let v = chars_of("aé漢");
    assert_eq!(take_bytes(&v, 1).map(|p| text_of(&p)), Some("a".to_string()));
    assert_eq!(take_bytes(&v, 2), None);
    assert_eq!(take_bytes(&v, 3).map(|p| text_of(&p)), Some("aé".to_string()));
    assert_eq!(take_bytes(&v, 6).map(|p| text_of(&p)), Some("aé漢".to_string()));
    assert_eq!(take_bytes(&v, 7), None);
}
