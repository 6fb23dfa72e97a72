use combo_gen::space::{default_charset, generate_combo_fast, ConfigError, Space};

#[test]
fn default_charset_is_printable_ascii() {
    let charset = default_charset();
    assert_eq!(charset.len(), 94);
    assert_eq!(charset[0], b'!');
    assert_eq!(charset[93], b'~');
    for (i, b) in charset.iter().enumerate() {
        assert_eq!(*b as usize, 33 + i);
    }
}

#[test]
fn two_letter_alphabet_enumerates_in_order() {
    let space = Space::new(b"ab".to_vec(), 2).unwrap();
    assert_eq!(space.total(), 4);
    let all: Vec<Vec<u8>> = (0..space.total()).map(|i| space.combination(i)).collect();
    assert_eq!(all, vec![b"aa".to_vec(), b"ab".to_vec(), b"ba".to_vec(), b"bb".to_vec()]);
}

#[test]
fn space_reports_its_parts() {
    let space = Space::new(b"xyz".to_vec(), 3).unwrap();
    assert_eq!(space.charset(), &b"xyz".to_vec());
    assert_eq!(space.length(), 3);
    assert_eq!(space.base(), 3);
    assert_eq!(space.total(), 27);
    assert_eq!(space.combination(26), b"zzz".to_vec());
    assert_eq!(space.combination(5), b"xyz".to_vec());
}

#[test]
fn overflowing_space_is_refused() {
    assert_eq!(Space::new(default_charset(), 10).err(), Some(ConfigError::Overflow));
}

#[test]
fn largest_fitting_space_is_accepted() {
    let space = Space::new(default_charset(), 9).unwrap();
    assert_eq!(space.total(), 572_994_802_228_616_704);
    let two = Space::new(b"01".to_vec(), 63).unwrap();
    assert_eq!(two.total(), 1u64 << 63);
    assert_eq!(Space::new(b"01".to_vec(), 64).err(), Some(ConfigError::Overflow));
}

#[test]
fn zero_length_is_refused() {
    assert_eq!(Space::new(b"ab".to_vec(), 0).err(), Some(ConfigError::ZeroLength));
    assert_eq!(Space::new(Vec::new(), 0).err(), Some(ConfigError::ZeroLength));
}

#[test]
fn empty_charset_is_refused() {
    assert_eq!(Space::new(Vec::new(), 3).err(), Some(ConfigError::EmptyCharset));
}

#[test]
fn single_byte_charset_is_refused() {
    assert_eq!(Space::new(b"a".to_vec(), 3).err(), Some(ConfigError::CharsetTooSmall));
}

#[test]
fn duplicate_bytes_render_alike() {
    let space = Space::new(b"aa".to_vec(), 2).unwrap();
    assert_eq!(space.total(), 4);
    for i in 0..4 {
        assert_eq!(space.combination(i), b"aa".to_vec());
    }
}

#[test]
fn generate_combo_fast_appends_one_line() {
    let mut out = b"xy\n".to_vec();
    generate_combo_fast(&vec![2, 0, 1], &b"abc".to_vec(), &mut out);
    assert_eq!(out, b"xy\ncab\n".to_vec());
    let mut long = Vec::new();
    generate_combo_fast(&vec![1; 12], &b"01".to_vec(), &mut long);
    assert_eq!(long, b"111111111111\n".to_vec());
}
