use kyopro::input::{input_pair, input_val, input_vec};

#[test]
fn test_input_vec_usize() {
    let line: Vec<u8> = b"2 4 5\n".to_vec();
    let result = input_vec(&line).unwrap();
    assert_eq!(result, vec![2usize, 4usize, 5usize]);
}

#[test]
fn input_vec_empty_line_gives_no_values() {
    let line: Vec<u8> = b"   \n".to_vec();
    assert_eq!(input_vec(&line).unwrap(), Vec::<usize>::new());
}

#[test]
fn input_vec_rejects_non_digit_token() {
    let line: Vec<u8> = b"12 x7 9\n".to_vec();
    assert!(input_vec(&line).is_none());
}

#[test]
fn input_vec_rejects_overflowing_token() {
    let line: Vec<u8> = b"99999999999999999999999999999999\n".to_vec();
    assert!(input_vec(&line).is_none());
}

#[test]
fn input_val_takes_first_token() {
    let line: Vec<u8> = b"  7 8 9\n".to_vec();
    assert_eq!(input_val(&line), Some(7usize));
    let empty: Vec<u8> = b"\n".to_vec();
    assert_eq!(input_val(&empty), None);
}

#[test]
fn input_pair_ignores_later_tokens() {
    let line: Vec<u8> = b"3 11 oops\n".to_vec();
    assert_eq!(input_pair(&line), Some((3usize, 11usize)));
    let short: Vec<u8> = b"3\n".to_vec();
    assert_eq!(input_pair(&short), None);
}

#[test]
fn input_accepts_leading_plus() {
    assert_eq!(input_vec(&b"+5 7\n".to_vec()).unwrap(), vec![5usize, 7]);
    assert_eq!(input_val(&b"+5 7\n".to_vec()), Some(5));
    assert_eq!(input_pair(&b"+5 +7 junk\n".to_vec()), Some((5, 7)));
    assert!(input_vec(&b"+\n".to_vec()).is_none());
    assert!(input_vec(&b"++5\n".to_vec()).is_none());
    assert!(input_vec(&b"5+\n".to_vec()).is_none());
}

#[test]
fn input_splits_on_all_ascii_whitespace() {
    let line: Vec<u8> = b"1\x0b2\x0c3\r4\t5 6\n".to_vec();
    assert_eq!(input_vec(&line).unwrap(), vec![1usize, 2, 3, 4, 5, 6]);
}
