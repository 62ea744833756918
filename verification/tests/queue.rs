use compress_highlight::byte_queue::{make_read_writer, INPUT_CHUNK};

#[test]
fn a_new_queue_is_empty() {
    let mut queue = make_read_writer();
    assert_eq!(queue.len(), 0);
    assert_eq!(queue.read(1), Vec::<u8>::new());
    assert_eq!(queue.read(64), Vec::<u8>::new());
}

#[test]
fn write_takes_everything() {
    let mut queue = make_read_writer();
    assert_eq!(queue.write(b""), 0);
    assert_eq!(queue.write(b"hello"), 5);
    assert_eq!(queue.len(), 5);
    assert_eq!(queue.write(b", world"), 7);
    assert_eq!(queue.len(), 12);
}

#[test]
fn bytes_come_out_in_the_order_they_went_in() {
    let mut queue = make_read_writer();
    queue.write(b"abc");
    queue.write(b"de");
    assert_eq!(queue.read(1), b"a".to_vec());
    assert_eq!(queue.read(2), b"bc".to_vec());
    queue.write(b"f");
    assert_eq!(queue.read(0), Vec::<u8>::new());
    assert_eq!(queue.len(), 3);
    assert_eq!(queue.read(10), b"def".to_vec());
    assert_eq!(queue.len(), 0);
    assert_eq!(queue.read(10), Vec::<u8>::new());
}

#[test]
fn one_byte_at_a_time() {
    let mut queue = make_read_writer();
    let text = b"The quick brown fox";
    queue.write(text);
    let mut out = Vec::new();
    loop {
        let next = queue.read(1);
        if next.is_empty() {
            break;
        }
        assert_eq!(next.len(), 1);
        out.extend(next);
    }
    assert_eq!(out, text);
}

#[test]
fn input_is_taken_in_chunks_of_64_bytes() {
    assert_eq!(INPUT_CHUNK, 64);
}
