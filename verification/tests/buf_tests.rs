use aisd24::buf::{CopyingBufReader, SliceReader};
use aisd24::scan::Scan;

fn reader(s: &str, cap: usize) -> CopyingBufReader<SliceReader> {
    CopyingBufReader::with_capacity(cap, SliceReader::new(s.as_bytes().to_vec()))
}

#[test]
fn reads_numbers_across_refills() {
    let mut r = reader("  12 345\n-6 +7 x", 3);
    assert_eq!(Scan::<u32>::try_scan(&mut r), Some(12));
    assert_eq!(Scan::<u64>::try_scan(&mut r), Some(345));
    assert_eq!(Scan::<i32>::try_scan(&mut r), Some(-6));
    assert_eq!(Scan::<i64>::try_scan(&mut r), Some(7));
    // the input ends before a number
    assert_eq!(Scan::<u32>::try_scan(&mut r), None);
}

#[test]
fn unsigned_skips_signs() {
    let mut r = reader("-42 ", 8);
    assert_eq!(Scan::<usize>::try_scan(&mut r), Some(42));
}

#[test]
fn wrapping_like_fixed_width() {
    let mut r = reader("300 -129 65537 ", 16);
    assert_eq!(Scan::<u8>::try_scan(&mut r), Some(44));
    assert_eq!(Scan::<i8>::try_scan(&mut r), Some(127));
    assert_eq!(Scan::<u16>::try_scan(&mut r), Some(1));
}

#[test]
fn a_number_at_the_very_end_needs_a_terminator() {
    let mut r = reader("17", 8);
    assert_eq!(Scan::<u32>::try_scan(&mut r), None);
}

#[test]
fn sign_without_digit() {
    let mut r = reader("- 5 ", 8);
    assert_eq!(Scan::<i16>::try_scan(&mut r), None);
}

#[test]
fn chars_one_by_one() {
    let mut r = reader("ab\n", 2);
    assert_eq!(Scan::<char>::try_scan(&mut r), Some('a'));
    assert_eq!(Scan::<char>::try_scan(&mut r), Some('b'));
    assert_eq!(Scan::<char>::try_scan(&mut r), Some('\n'));
    assert_eq!(Scan::<char>::try_scan(&mut r), None);
}

#[test]
fn peek_and_consume() {
    let mut r = CopyingBufReader::new(SliceReader::new(b"xyz".to_vec()));
    assert_eq!(r.peek(), Some(b'x'));
    r.consume(1);
    assert_eq!(r.peek(), Some(b'y'));
    r.consume(2);
    assert_eq!(r.peek(), None);
}

#[test]
fn isize_and_big_numbers() {
    let mut r = reader("-9223372036854775808 18446744073709551615 ", 4);
    assert_eq!(Scan::<isize>::try_scan(&mut r), Some(isize::MIN));
    assert_eq!(Scan::<u64>::try_scan(&mut r), Some(u64::MAX));
}

#[test]
fn no_room_reads_nothing() {
    let mut r = reader("5 ", 0);
    assert_eq!(r.peek(), None);
    assert_eq!(Scan::<u32>::try_scan(&mut r), None);
}

#[test]
fn peek_keeps_the_byte_across_refills() {
    let mut r = reader("ab", 1);
    assert_eq!(r.peek(), Some(b'a'));
    assert_eq!(r.peek(), Some(b'a'));
    r.consume(1);
    assert_eq!(r.peek(), Some(b'b'));
    r.consume(1);
    assert_eq!(r.peek(), None);
}

#[test]
fn the_terminator_is_left_to_come() {
    let mut r = reader("12x", 4);
    assert_eq!(Scan::<u32>::try_scan(&mut r), Some(12));
    assert_eq!(Scan::<char>::try_scan(&mut r), Some('x'));
}

#[test]
fn scan_reads_what_is_there() {
    let mut r = reader("3 -4 z", 2);
    assert_eq!(Scan::<u32>::scan(&mut r), 3);
    assert_eq!(Scan::<i32>::scan(&mut r), -4);
    assert_eq!(Scan::<char>::scan(&mut r), ' ');
    assert_eq!(Scan::<char>::scan(&mut r), 'z');
}
