use string_ring::{Granularity, StringRing};

fn text(buf: &StringRing) -> String {
    let (a, b) = buf.as_slices();
    let mut bytes = a.to_vec();
    bytes.extend_from_slice(b);
    String::from_utf8(bytes).unwrap()
}

#[test]
fn test_string_ring_char() {
    let mut buf = StringRing::new(18, Granularity::Character);
    assert_eq!(buf.make_contiguous(), "");
    buf.push("hello world");
    assert_eq!(buf.make_contiguous(), "hello world");
    buf.push("this is a test");
    assert_eq!(buf.make_contiguous(), "orldthis is a test");
    buf.push("this is a really long string that will go over the buffer limit");
    assert_eq!(buf.make_contiguous(), "r the buffer limit");
}

#[test]
fn test_string_ring_line() {
    let mut buf = StringRing::new(21, Granularity::Line);
    assert_eq!(buf.make_contiguous(), "");
    buf.push("hello world\n");
    assert_eq!(buf.make_contiguous(), "hello world\n");
    buf.push("this is a test\n");
    assert_eq!(buf.make_contiguous(), "this is a test\n");
    buf.push("small\n");
    assert_eq!(buf.make_contiguous(), "this is a test\nsmall\n");
    buf.push("a\n");
    assert_eq!(buf.make_contiguous(), "small\na\n");
    buf.push("this is a really long line that will go over the limit\n");
    assert_eq!(buf.make_contiguous(), "");
    buf.push("another test");
    assert_eq!(buf.make_contiguous(), "another test");
    buf.push("bananasyo");
    assert_eq!(buf.make_contiguous(), "another testbananasyo");
    buf.push("x");
    assert_eq!(buf.make_contiguous(), "");
    buf.push("more content");
    assert_eq!(buf.make_contiguous(), "");
    buf.push("even more content\nand a new line\n");
    assert_eq!(buf.make_contiguous(), "and a new line\n");
}

#[test]
fn new_buffer_is_empty() {
    let mut buf = StringRing::new(8, Granularity::Character);
    assert_eq!(buf.len(), 0);
    assert!(buf.is_empty());
    assert_eq!(buf.as_slices(), (&b""[..], &b""[..]));
    assert_eq!(buf.make_contiguous(), "");
}

#[test]
fn len_and_is_empty_follow_the_content() {
    let mut buf = StringRing::new(8, Granularity::Character);
    buf.push("abc");
    assert_eq!(buf.len(), 3);
    assert!(!buf.is_empty());
    buf.push("defghij");
    assert_eq!(buf.len(), 8);
    assert_eq!(text(&buf), "cdefghij");
}

#[test]
fn push_that_fits_exactly_evicts_nothing() {
    let mut buf = StringRing::new(5, Granularity::Character);
    buf.push("ab");
    buf.push("cde");
    assert_eq!(buf.make_contiguous(), "abcde");
    // Nothing has to go for an empty push, even at capacity.
    buf.push("");
    assert_eq!(buf.make_contiguous(), "abcde");
    assert_eq!(buf.len(), 5);
}

#[test]
fn push_of_exactly_the_capacity_replaces_the_content() {
    let mut buf = StringRing::new(5, Granularity::Character);
    buf.push("ab");
    buf.push("vwxyz");
    assert_eq!(buf.make_contiguous(), "vwxyz");
}

#[test]
fn char_eviction_rounds_up_to_a_boundary() {
    let mut buf = StringRing::new(4, Granularity::Character);
    buf.push("한a");
    assert_eq!(buf.make_contiguous(), "한a");
    // One byte has to go; the whole three-byte character goes.
    buf.push("b");
    assert_eq!(buf.make_contiguous(), "ab");
    assert_eq!(buf.len(), 2);
}

#[test]
fn char_eviction_inside_the_last_character_of_the_content() {
    let mut buf = StringRing::new(4, Granularity::Character);
    buf.push("한");
    // One byte has to go, and it lies in the only character held.
    buf.push("ab");
    assert_eq!(buf.make_contiguous(), "ab");
}

#[test]
fn char_eviction_inside_the_input() {
    let mut buf = StringRing::new(4, Granularity::Character);
    buf.push("xy");
    // The last four bytes begin in the middle of the second character.
    buf.push("한들a");
    assert_eq!(buf.make_contiguous(), "들a");
    let mut buf = StringRing::new(18, Granularity::Character);
    buf.push("0123456789abcdefg𝄞hijklmnopqrstuvw");
    assert_eq!(buf.make_contiguous(), "hijklmnopqrstuvw");
    assert_eq!(buf.len(), 16);
}

#[test]
fn content_is_valid_utf8_after_every_push() {
    let chunks = ["한", "a들", "€€€", "𝄞", "xyz", "é", "", "들들들들"];
    for max_size in 0..12 {
        let mut buf = StringRing::new(max_size, Granularity::Character);
        for chunk in chunks {
            buf.push(chunk);
            assert!(buf.len() <= max_size);
            let (a, b) = buf.as_slices();
            let mut bytes = a.to_vec();
            bytes.extend_from_slice(b);
            assert!(std::str::from_utf8(&bytes).is_ok());
        }
    }
}

#[test]
fn capacity_is_never_exceeded_by_lines() {
    let chunks = ["ab\n", "cdefg", "\n", "h\ni\n", "jklmnopqrstuvwxyz", "한\n", "", "\n\n"];
    for max_size in 0..12 {
        let mut buf = StringRing::new(max_size, Granularity::Line);
        for chunk in chunks {
            buf.push(chunk);
            assert!(buf.len() <= max_size);
            assert!(std::str::from_utf8(text(&buf).as_bytes()).is_ok());
        }
    }
}

fn streams() -> Vec<&'static str> {
    vec![
        "",
        "a",
        "\n",
        "hello world\n",
        "this is a test\n",
        "no end of line here",
        "한들\n€𝄞é",
        "\n\nab\n",
        "a\nbb\nccc\ndddd\neeeee\n",
        "tail without newline\nand more",
    ]
}

#[test]
fn pushing_in_two_parts_equals_pushing_at_once() {
    let settings = [Granularity::Character, Granularity::Line];
    for which in 0..settings.len() {
        for max_size in [0usize, 1, 2, 3, 4, 5, 7, 8, 13, 21, 64] {
            for first in streams() {
                for a in streams() {
                    for b in streams() {
                        let make = || match settings[which] {
                            Granularity::Character => StringRing::new(max_size, Granularity::Character),
                            Granularity::Line => StringRing::new(max_size, Granularity::Line),
                        };
                        let mut split = make();
                        split.push(first);
                        split.push(a);
                        split.push(b);
                        let mut whole = make();
                        whole.push(first);
                        whole.push(&format!("{}{}", a, b));
                        assert_eq!(text(&split), text(&whole));
                        // What is owed of a dropped line shows in what comes next.
                        split.push("x\ny");
                        whole.push("x\ny");
                        assert_eq!(text(&split), text(&whole));
                    }
                }
            }
        }
    }
}

#[test]
fn pushing_byte_by_character_equals_pushing_at_once() {
    let stream = "first line\nsecond 한들 line\n\nthird€\nlast𝄞 without end";
    for max_size in 0..40 {
        let mut piecewise = StringRing::new(max_size, Granularity::Line);
        let mut whole = StringRing::new(max_size, Granularity::Line);
        for c in stream.chars() {
            piecewise.push(&c.to_string());
        }
        whole.push(stream);
        assert_eq!(text(&piecewise), text(&whole));
        let mut piecewise = StringRing::new(max_size, Granularity::Character);
        let mut whole = StringRing::new(max_size, Granularity::Character);
        for c in stream.chars() {
            piecewise.push(&c.to_string());
        }
        whole.push(stream);
        assert_eq!(text(&piecewise), text(&whole));
    }
}

#[test]
fn line_eviction_keeps_whole_lines() {
    let mut buf = StringRing::new(10, Granularity::Line);
    buf.push("ab\ncd\nef\n");
    assert_eq!(buf.make_contiguous(), "ab\ncd\nef\n");
    // Two bytes have to go; the first line goes whole.
    buf.push("gh\n");
    assert_eq!(buf.make_contiguous(), "cd\nef\ngh\n");
    // Three bytes have to go and end a line: no more goes.
    buf.push("ij\n");
    assert_eq!(buf.make_contiguous(), "ef\ngh\nij\n");
}

#[test]
fn line_eviction_reaches_into_the_input() {
    let mut buf = StringRing::new(8, Granularity::Line);
    buf.push("abcdef");
    // The content holds no end of line: it goes whole, with the input up to
    // the first end of line.
    buf.push("gh\nij");
    assert_eq!(buf.make_contiguous(), "ij");
    assert_eq!(buf.len(), 2);
}

#[test]
fn line_eviction_retains_content_right_after_a_newline() {
    let stream = "one\ntwo\nthree\nfour\nfive\nsix";
    for max_size in 1..stream.len() {
        let mut buf = StringRing::new(max_size, Granularity::Line);
        buf.push(stream);
        let kept = text(&buf);
        if !kept.is_empty() {
            assert!(stream.ends_with(&kept));
            let start = stream.len() - kept.len();
            assert_eq!(stream.as_bytes()[start - 1], b'\n');
        }
    }
}

#[test]
fn long_line_is_discarded_until_its_end() {
    let mut buf = StringRing::new(5, Granularity::Line);
    buf.push("a long line");
    assert_eq!(buf.make_contiguous(), "");
    buf.push(" goes on");
    assert_eq!(buf.make_contiguous(), "");
    assert!(buf.is_empty());
    buf.push(" and ends\nnew");
    assert_eq!(buf.make_contiguous(), "new");
}

#[test]
fn long_line_followed_by_newline_leaves_the_buffer_empty_and_ready() {
    let mut buf = StringRing::new(5, Granularity::Line);
    buf.push("a line longer than the buffer");
    buf.push("\n");
    assert_eq!(buf.make_contiguous(), "");
    // The line has ended: what comes now is kept.
    buf.push("ab");
    assert_eq!(buf.make_contiguous(), "ab");
}

#[test]
fn discarding_skips_to_the_newline_then_evicts_again() {
    let mut buf = StringRing::new(5, Granularity::Line);
    buf.push("ab");
    buf.push("c\ndefghijk\nlm");
    assert_eq!(buf.make_contiguous(), "lm");
    let mut buf = StringRing::new(3, Granularity::Line);
    buf.push("ab");
    buf.push("c\nde\nfgh");
    assert_eq!(buf.make_contiguous(), "fgh");
}

#[test]
fn carriage_return_does_not_end_a_line() {
    let mut buf = StringRing::new(6, Granularity::Line);
    buf.push("ab\r\ncd\r");
    buf.push("ef");
    assert_eq!(buf.make_contiguous(), "cd\ref");
}

#[test]
fn line_eviction_with_multibyte_text() {
    let mut buf = StringRing::new(9, Granularity::Line);
    buf.push("한\n들\n");
    assert_eq!(buf.make_contiguous(), "한\n들\n");
    buf.push("€\n");
    assert_eq!(buf.make_contiguous(), "들\n€\n");
}

#[test]
fn zero_capacity_keeps_nothing_by_characters() {
    let mut buf = StringRing::new(0, Granularity::Character);
    buf.push("");
    assert!(buf.is_empty());
    buf.push("abc");
    assert!(buf.is_empty());
    buf.push("한");
    assert_eq!(buf.make_contiguous(), "");
    assert_eq!(buf.len(), 0);
}

#[test]
fn zero_capacity_keeps_nothing_by_lines() {
    let mut buf = StringRing::new(0, Granularity::Line);
    buf.push("abc");
    assert!(buf.is_empty());
    buf.push("def\n");
    assert!(buf.is_empty());
    buf.push("\n\n");
    assert_eq!(buf.make_contiguous(), "");
    assert_eq!(buf.len(), 0);
}

#[test]
fn clear_empties_the_buffer() {
    let mut buf = StringRing::new(10, Granularity::Character);
    buf.push("abcdef");
    buf.clear();
    assert!(buf.is_empty());
    assert_eq!(buf.len(), 0);
    assert_eq!(buf.make_contiguous(), "");
    buf.push("0123456789ab");
    assert_eq!(buf.make_contiguous(), "23456789ab");
}

#[test]
fn clear_ends_discarding() {
    let mut buf = StringRing::new(5, Granularity::Line);
    buf.push("a long line without end");
    assert!(buf.is_empty());
    buf.clear();
    // A fresh buffer keeps this; a discarding one would drop it.
    buf.push("ab");
    assert_eq!(buf.make_contiguous(), "ab");
}

#[test]
fn cleared_buffer_behaves_like_a_new_one() {
    let pushes = ["ab\n", "cdefg", "\nhi", "한\n들", "", "jklmnopqrstuvwxyz\n", "z"];
    for max_size in [0usize, 1, 3, 6, 9, 20] {
        let mut used = StringRing::new(max_size, Granularity::Line);
        used.push("something\nthat was there before");
        used.push("and more");
        used.clear();
        let mut fresh = StringRing::new(max_size, Granularity::Line);
        for chunk in pushes {
            used.push(chunk);
            fresh.push(chunk);
            assert_eq!(text(&used), text(&fresh));
            assert_eq!(used.len(), fresh.len());
        }
        let mut used = StringRing::new(max_size, Granularity::Character);
        used.push("something that was there before");
        used.clear();
        let mut fresh = StringRing::new(max_size, Granularity::Character);
        for chunk in pushes {
            used.push(chunk);
            fresh.push(chunk);
            assert_eq!(text(&used), text(&fresh));
        }
    }
}

#[test]
fn as_slices_hold_the_content_in_order() {
    let mut buf = StringRing::new(8, Granularity::Character);
    // Wrap the storage around a few times.
    for chunk in ["abcde", "fgh", "ijkl", "mn", "opqrs", "tu"] {
        buf.push(chunk);
    }
    let (a, b) = buf.as_slices();
    assert_eq!(a.len() + b.len(), buf.len());
    let mut bytes = a.to_vec();
    bytes.extend_from_slice(b);
    assert_eq!(bytes, b"nopqrstu");
}

#[test]
fn make_contiguous_gathers_the_content_in_one_run() {
    let mut buf = StringRing::new(8, Granularity::Character);
    for chunk in ["abcde", "fgh", "ijkl", "mn", "opqrs", "tu"] {
        buf.push(chunk);
    }
    assert_eq!(buf.make_contiguous(), "nopqrstu");
    let (a, b) = buf.as_slices();
    assert_eq!(a, b"nopqrstu");
    assert!(b.is_empty());
    assert_eq!(buf.len(), 8);
}

#[test]
fn make_contiguous_hands_out_the_storage_itself() {
    let mut buf = StringRing::new(8, Granularity::Character);
    buf.push("abc한");
    buf.make_contiguous().make_ascii_uppercase();
    assert_eq!(text(&buf), "ABC한");
    assert_eq!(buf.len(), 6);
    buf.push("de");
    assert_eq!(buf.make_contiguous(), "ABC한de");
}

#[test]
fn long_push_keeps_the_last_bytes_by_characters() {
    let mut buf = StringRing::new(18, Granularity::Character);
    buf.push("hello world");
    buf.push("this is a really long string that will go over the buffer limit");
    assert_eq!(buf.len(), 18);
    assert_eq!(buf.make_contiguous(), "r the buffer limit");
}
