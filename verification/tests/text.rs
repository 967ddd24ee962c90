use sshdconfig::bytes::{
    bytes_eq, check_clean, check_word, copy_range, split_lines, split_word, to_lower, trimmed,
};

#[test]
fn to_lower_folds_ascii_only() {
    assert_eq!(to_lower(b"PasswordAuthentication"), b"passwordauthentication".to_vec());
    assert_eq!(to_lower(b"a-Z_09 [@`{"), b"a-z_09 [@`{".to_vec());
    assert_eq!(to_lower("É".as_bytes()), "É".as_bytes().to_vec());
}

#[test]
fn trimmed_removes_both_ends() {
    assert_eq!(trimmed(b"  Port 22 \t\r"), b"Port 22".to_vec());
    assert_eq!(trimmed(b"   "), Vec::<u8>::new());
    assert_eq!(trimmed(b""), Vec::<u8>::new());
    assert_eq!(trimmed(b"x"), b"x".to_vec());
}

#[test]
fn split_word_splits_at_first_whitespace() {
    assert_eq!(split_word(b"Port 22"), (b"Port".to_vec(), b"22".to_vec()));
    assert_eq!(split_word(b"Subsystem \t sftp  /usr/lib"), (b"Subsystem".to_vec(), b"sftp  /usr/lib".to_vec()));
    assert_eq!(split_word(b"Port"), (b"Port".to_vec(), Vec::<u8>::new()));
    assert_eq!(split_word(b""), (Vec::<u8>::new(), Vec::<u8>::new()));
}

#[test]
fn split_lines_ends_lines_at_newlines() {
    assert_eq!(split_lines(b"a\nb\n"), vec![b"a".to_vec(), b"b".to_vec()]);
    assert_eq!(split_lines(b"a\nb"), vec![b"a".to_vec(), b"b".to_vec()]);
    assert_eq!(split_lines(b"a\n\nb"), vec![b"a".to_vec(), b"".to_vec(), b"b".to_vec()]);
    assert_eq!(split_lines(b""), Vec::<Vec<u8>>::new());
    assert_eq!(split_lines(b"\n"), vec![b"".to_vec()]);
}

#[test]
fn bytes_eq_and_copy_range() {
    assert!(bytes_eq(b"abc", b"abc"));
    assert!(!bytes_eq(b"abc", b"abd"));
    assert!(!bytes_eq(b"abc", b"ab"));
    assert_eq!(copy_range(b"abcdef", 2, 4), b"cd".to_vec());
    assert_eq!(copy_range(b"abcdef", 3, 3), Vec::<u8>::new());
}

#[test]
fn clean_values_and_words() {
    assert!(check_clean(b"yes"));
    assert!(check_clean(b"a b"));
    assert!(!check_clean(b""));
    assert!(!check_clean(b" a"));
    assert!(!check_clean(b"a "));
    assert!(!check_clean(b"a\nb"));
    assert!(check_word(b"sftp"));
    assert!(!check_word(b"a b"));
    assert!(!check_word(b""));
    assert!(!check_word(b"a\n"));
}
