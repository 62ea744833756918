use compress_highlight::lines::{split_lines, LINE_FEED};
use std::collections::VecDeque;

fn split(bytes: &[u8]) -> Vec<Vec<u8>> {
    split_lines(&bytes.iter().copied().collect::<VecDeque<u8>>())
}

#[test]
fn line_feed_is_the_newline_byte() {
    assert_eq!(LINE_FEED, b'\n');
}

#[test]
fn nothing_to_split() {
    assert_eq!(split(b""), Vec::<Vec<u8>>::new());
}

#[test]
fn no_line_feed_gives_one_fragment() {
    assert_eq!(split(b"abc"), vec![b"abc".to_vec()]);
}

#[test]
fn each_line_feed_ends_a_fragment() {
    assert_eq!(
        split(b"ab\nab\nab\nab\n"),
        vec![b"ab\n".to_vec(), b"ab\n".to_vec(), b"ab\n".to_vec(), b"ab\n".to_vec()]
    );
    assert_eq!(
        split(b"a\n\nb"),
        vec![b"a\n".to_vec(), b"\n".to_vec(), b"b".to_vec()]
    );
    assert_eq!(split(b"\n"), vec![b"\n".to_vec()]);
    assert_eq!(split(b"\nx"), vec![b"\n".to_vec(), b"x".to_vec()]);
}

#[test]
fn split_agrees_with_split_inclusive() {
    let text: &[u8] = b"one\ntwo\r\n\n\nthree four\n five";
    for start in 0..text.len() {
        for end in start..=text.len() {
            let bytes = &text[start..end];
            let expected: Vec<Vec<u8>> = bytes
                .split_inclusive(|&c| c == b'\n')
                .map(|line| line.to_vec())
                .collect();
            assert_eq!(split(bytes), expected);
            assert_eq!(split(bytes).concat(), bytes);
        }
    }
}

#[test]
fn split_of_a_wrapped_queue() {
    // A queue whose contents wrap around the end of its storage.
    let mut queue: VecDeque<u8> = VecDeque::with_capacity(8);
    for &byte in b"0123456" {
        queue.push_back(byte);
    }
    for _ in 0..5 {
        queue.pop_front();
    }
    for &byte in b"ab\ncd" {
        queue.push_back(byte);
    }
    assert_eq!(
        split_lines(&queue),
        vec![b"56ab\n".to_vec(), b"cd".to_vec()]
    );
}
