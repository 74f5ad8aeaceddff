use mwgc::memory::{Memory, BASE_ADDRESS};
use mwgc::string_buffer::{BufferFull, StringBuffer};
use mwgc::text::push_decimal;

#[test]
fn memory_wraps_bytes_at_the_base_address() {
    let m = Memory::new(vec![1, 2, 3]);
    assert_eq!(m.start(), BASE_ADDRESS);
    assert_eq!(m.end(), BASE_ADDRESS + 3);
    assert_eq!(m.len(), 3);
    assert_eq!(m.offset(2), BASE_ADDRESS + 2);
    assert_eq!(m.inner(), vec![1, 2, 3]);
}

#[test]
fn memory_from_addresses_is_zeroed() {
    let m = Memory::from_addresses(64, 70);
    assert_eq!((m.start(), m.end(), m.len()), (64, 70, 6));
    assert_eq!(m.inner(), vec![0; 6]);
    let empty = Memory::from_addresses(64, 64);
    assert_eq!((empty.start(), empty.end(), empty.len()), (64, 64, 0));
}

#[test]
fn memory_split_at() {
    let (a, b) = Memory::new(vec![1, 2, 3, 4, 5]).split_at(2);
    assert_eq!((a.start(), a.len()), (BASE_ADDRESS, 2));
    assert_eq!((b.start(), b.len()), (BASE_ADDRESS + 2, 3));
    assert_eq!(a.inner(), vec![1, 2]);
    assert_eq!(b.inner(), vec![3, 4, 5]);
    let (a, b) = Memory::new(vec![7, 8]).split_at(0);
    assert_eq!((a.start(), a.len(), b.start(), b.len()), (BASE_ADDRESS, 0, BASE_ADDRESS, 2));
    let (a, b) = Memory::new(vec![7, 8]).split_at(2);
    assert_eq!((a.len(), b.start(), b.len()), (2, BASE_ADDRESS + 2, 0));
    assert_eq!(a.inner(), vec![7, 8]);
}

#[test]
fn memory_clear() {
    let mut m = Memory::new(vec![9; 5]);
    m.clear();
    assert_eq!(m.start(), BASE_ADDRESS);
    assert_eq!(m.inner(), vec![0; 5]);
}

#[test]
fn decimal_numerals() {
    for (n, text) in [
        (0, "0"),
        (7, "7"),
        (10, "10"),
        (240, "240"),
        (1009, "1009"),
        (usize::MAX, "18446744073709551615"),
    ] {
        let mut s = String::from("x");
        push_decimal(&mut s, n);
        assert_eq!(s, format!("x{}", text));
    }
}

#[test]
fn string_buffer_collects_what_fits() {
    let mut b = StringBuffer::new(vec![0; 8]);
    assert_eq!(b.write_str("abc"), Ok(()));
    assert_eq!(b.write_str(""), Ok(()));
    assert_eq!(b.write_str("de"), Ok(()));
    // six bytes do not fit in the three that are left
    assert_eq!(b.write_str("fghijk"), Err(BufferFull));
    assert_eq!(b.write_str("fgh"), Ok(()));
    assert_eq!(b.write_str("i"), Err(BufferFull));
    assert_eq!(b.to_str(), "abcdefgh");
}

#[test]
fn string_buffer_counts_bytes_not_characters() {
    let mut b = StringBuffer::new(vec![0xff; 5]);
    assert_eq!(b.write_str("\u{e9}\u{20ac}"), Ok(()));
    assert_eq!(b.write_str("\u{e9}"), Err(BufferFull));
    assert_eq!(b.to_str(), "\u{e9}\u{20ac}");
    assert_eq!(StringBuffer::new(vec![1, 2, 3]).to_str(), "");
    assert_eq!(StringBuffer::new(Vec::new()).write_str("a"), Err(BufferFull));
}
