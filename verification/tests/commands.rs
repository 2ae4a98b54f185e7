use wvi::commands::{lock_attempts, search, switch};
use wvi::file_buffer::FileBuffer;

#[test]
fn search_and_switch_append_their_name() {
    let mut buf = FileBuffer::from_bytes(b"top");
    let mut mode = 7u8;
    search(&mut mode, &mut buf).unwrap();
    switch(&mut mode, &mut buf).unwrap();
    assert_eq!(mode, 7);
    assert_eq!(buf.write_file().unwrap(), "top\nsearch\nswitch\n");
}

#[test]
fn lock_attempts_counts_below_limit() {
    assert_eq!(lock_attempts(0), 0);
    assert_eq!(lock_attempts(1), 0);
    assert_eq!(lock_attempts(100_000), 99_999);
}
