use tictactoe::text::{fmt_u64, normalize, parse_u64, split_fields, split_lines, trim_bytes};

#[test]
fn parse_u64_reads_plain_decimals() {
    assert_eq!(parse_u64(b"0"), Some(0));
    assert_eq!(parse_u64(b"7"), Some(7));
    assert_eq!(parse_u64(b"007"), Some(7));
    assert_eq!(parse_u64(b"1234567890"), Some(1234567890));
    assert_eq!(parse_u64(b"18446744073709551615"), Some(u64::MAX));
}

#[test]
fn parse_u64_refuses_everything_else() {
    assert_eq!(parse_u64(b""), None);
    assert_eq!(parse_u64(b"12a"), None);
    assert_eq!(parse_u64(b"-3"), None);
    assert_eq!(parse_u64(b" 3"), None);
    assert_eq!(parse_u64(b"18446744073709551616"), None);
    assert_eq!(parse_u64(b"99999999999999999999999"), None);
}

#[test]
fn fmt_u64_renders_canonical_decimals() {
    assert_eq!(fmt_u64(0), b"0".to_vec());
    assert_eq!(fmt_u64(9), b"9".to_vec());
    assert_eq!(fmt_u64(10), b"10".to_vec());
    assert_eq!(fmt_u64(1234567890), b"1234567890".to_vec());
    assert_eq!(fmt_u64(u64::MAX), b"18446744073709551615".to_vec());
}

#[test]
fn fmt_then_parse_round_trips() {
    for n in [0u64, 1, 9, 10, 99, 100, 4096, u64::MAX - 1, u64::MAX] {
        assert_eq!(parse_u64(&fmt_u64(n)), Some(n));
    }
}

#[test]
fn trim_and_normalize_fold_whitespace_and_case() {
    assert_eq!(trim_bytes(b"  AnN \t"), b"AnN".to_vec());
    assert_eq!(trim_bytes(b"\r\n"), Vec::<u8>::new());
    assert_eq!(normalize(b"  AnN "), b"ann".to_vec());
    assert_eq!(normalize(b"BOB"), b"bob".to_vec());
    assert_eq!(normalize(b"x-1_Y"), b"x-1_y".to_vec());
}

#[test]
fn split_lines_keeps_inner_empties_and_drops_the_final_terminator() {
    let lines = split_lines(b"a\nb\n");
    assert_eq!(lines, vec![b"a".to_vec(), b"b".to_vec()]);
    let lines = split_lines(b"a\n\nb");
    assert_eq!(lines, vec![b"a".to_vec(), Vec::new(), b"b".to_vec()]);
    assert_eq!(split_lines(b""), Vec::<Vec<u8>>::new());
}

#[test]
fn split_fields_breaks_on_spaces_tabs_commas_and_cr() {
    let fields = split_fields(b" a,b\tc\r");
    assert_eq!(fields, vec![b"a".to_vec(), b"b".to_vec(), b"c".to_vec()]);
    assert_eq!(split_fields(b" ,\t"), Vec::<Vec<u8>>::new());
    assert_eq!(split_fields(b"one"), vec![b"one".to_vec()]);
}
