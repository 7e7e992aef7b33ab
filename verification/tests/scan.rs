use hydra::scan::{is_space_byte, skip_ws};

#[test]
fn white_space_is_skipped_up_to_the_end() {
    assert_eq!(skip_ws(b" \t\r\n\x0cx", 0), 5);
    assert_eq!(skip_ws(b"ab", 0), 0);
    assert_eq!(skip_ws(b"a  b", 1), 3);
    assert_eq!(skip_ws(b"a  ", 1), 3);
    assert_eq!(skip_ws(b"ab", 2), 2);
    assert_eq!(skip_ws(b"ab", 9), 2);
    assert_eq!(skip_ws(b"", 1), 0);
}

#[test]
fn white_space_is_that_of_ascii() {
    for b in 0..=255u8 {
        assert_eq!(is_space_byte(b), b.is_ascii_whitespace());
    }
}
