use string_ring::ceil_char_boundary_offset;

#[test]
fn test_ceil_char_boundary_offset() {
    assert_eq!(ceil_char_boundary_offset("hello".as_bytes().iter().copied().skip(0)), 0);
    assert_eq!(ceil_char_boundary_offset("hello".as_bytes().iter().copied().skip(1)), 0);
    assert_eq!(ceil_char_boundary_offset("hello".as_bytes().iter().copied().skip(2)), 0);
    assert_eq!(ceil_char_boundary_offset("hello".as_bytes().iter().copied().skip(3)), 0);
    assert_eq!(ceil_char_boundary_offset("hello".as_bytes().iter().copied().skip(4)), 0);
    assert_eq!(ceil_char_boundary_offset("hello".as_bytes().iter().copied().skip(5)), 0);

    assert_eq!(ceil_char_boundary_offset("한eel들o".as_bytes().iter().copied().skip(0)), 0);
    assert_eq!(ceil_char_boundary_offset("한eel들o".as_bytes().iter().copied().skip(1)), 2);
    assert_eq!(ceil_char_boundary_offset("한eel들o".as_bytes().iter().copied().skip(2)), 1);
    assert_eq!(ceil_char_boundary_offset("한eel들o".as_bytes().iter().copied().skip(3)), 0);
    assert_eq!(ceil_char_boundary_offset("한eel들o".as_bytes().iter().copied().skip(4)), 0);
    assert_eq!(ceil_char_boundary_offset("한eel들o".as_bytes().iter().copied().skip(5)), 0);
    assert_eq!(ceil_char_boundary_offset("한eel들o".as_bytes().iter().copied().skip(6)), 0);
    assert_eq!(ceil_char_boundary_offset("한eel들o".as_bytes().iter().copied().skip(7)), 2);
    assert_eq!(ceil_char_boundary_offset("한eel들o".as_bytes().iter().copied().skip(8)), 1);
    assert_eq!(ceil_char_boundary_offset("한eel들o".as_bytes().iter().copied().skip(9)), 0);
    assert_eq!(ceil_char_boundary_offset("한eel들o".as_bytes().iter().copied().skip(10)), 0);
}

#[test]
fn offset_of_empty_input_is_zero() {
    assert_eq!(ceil_char_boundary_offset("".as_bytes().iter().copied()), 0);
    assert_eq!(ceil_char_boundary_offset(Vec::<u8>::new().into_iter()), 0);
}

#[test]
fn offset_counts_up_to_the_end_of_input() {
    // The last codepoint ends where the input ends: that end is a boundary.
    assert_eq!(ceil_char_boundary_offset("한".as_bytes().iter().copied().skip(1)), 2);
    assert_eq!(ceil_char_boundary_offset("한".as_bytes().iter().copied().skip(2)), 1);
    assert_eq!(ceil_char_boundary_offset("한".as_bytes().iter().copied().skip(3)), 0);
}

#[test]
fn offset_inside_each_width_of_codepoint() {
    // two bytes
    assert_eq!(ceil_char_boundary_offset("éa".as_bytes().iter().copied().skip(1)), 1);
    // three bytes
    assert_eq!(ceil_char_boundary_offset("€a".as_bytes().iter().copied().skip(1)), 2);
    assert_eq!(ceil_char_boundary_offset("€a".as_bytes().iter().copied().skip(2)), 1);
    // four bytes
    assert_eq!(ceil_char_boundary_offset("𝄞a".as_bytes().iter().copied().skip(0)), 0);
    assert_eq!(ceil_char_boundary_offset("𝄞a".as_bytes().iter().copied().skip(1)), 3);
    assert_eq!(ceil_char_boundary_offset("𝄞a".as_bytes().iter().copied().skip(2)), 2);
    assert_eq!(ceil_char_boundary_offset("𝄞a".as_bytes().iter().copied().skip(3)), 1);
    assert_eq!(ceil_char_boundary_offset("𝄞a".as_bytes().iter().copied().skip(4)), 0);
}

#[test]
fn offset_reads_no_further_than_the_boundary() {
    let mut src = "한eel".as_bytes().iter().copied().skip(1);
    assert_eq!(ceil_char_boundary_offset(src.by_ref()), 2);
    // Two continuation bytes and the byte that stands on the boundary were read.
    assert_eq!(src.next(), Some(b'e'));
}

#[test]
fn offset_reads_four_bytes_at_most() {
    let mut src = "𝄞ab".as_bytes().iter().copied().skip(1);
    assert_eq!(ceil_char_boundary_offset(src.by_ref()), 3);
    // Three continuation bytes and the byte that stands on the boundary were read.
    assert_eq!(src.next(), Some(b'b'));
}

#[test]
fn offset_from_an_owned_iterator() {
    let bytes: Vec<u8> = vec![0x9c, b'x'];
    assert_eq!(ceil_char_boundary_offset(bytes.into_iter()), 1);
}
