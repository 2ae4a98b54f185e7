use wvi::file_buffer::FileBuffer;

fn lines_of(buf: &FileBuffer) -> Vec<String> {
    (0..buf.len())
        .map(|y| buf.get_line(y).unwrap().iter().collect())
        .collect()
}

#[test]
fn from_bytes_splits_lines() {
    let buf = FileBuffer::from_bytes(b"abc\nde\n\nf");
    assert_eq!(lines_of(&buf), vec!["abc", "de", "", "f"]);
    assert_eq!(buf.len(), 4);
}

#[test]
fn from_bytes_trailing_newline_adds_no_line() {
    let buf = FileBuffer::from_bytes(b"one\ntwo\n");
    assert_eq!(lines_of(&buf), vec!["one", "two"]);
}

#[test]
fn from_bytes_empty_input() {
    let buf = FileBuffer::from_bytes(b"");
    assert_eq!(buf.len(), 0);
    let buf = FileBuffer::from_bytes(b"\n");
    assert_eq!(lines_of(&buf), vec![""]);
}

#[test]
fn from_bytes_strips_one_carriage_return() {
    let buf = FileBuffer::from_bytes(b"a\r\nb\r\r\nc\r");
    assert_eq!(lines_of(&buf), vec!["a", "b\r", "c\r"]);
}

#[test]
fn from_bytes_skips_invalid_utf8_lines() {
    let buf = FileBuffer::from_bytes(b"ok\n\xff\xfe\nfine\n");
    assert_eq!(lines_of(&buf), vec!["ok", "fine"]);
}

#[test]
fn from_bytes_decodes_multibyte_characters() {
    let buf = FileBuffer::from_bytes("héllo\n€𝄞".as_bytes());
    assert_eq!(lines_of(&buf), vec!["héllo", "€𝄞"]);
    assert_eq!(buf.line_len(0), Some(5));
    assert_eq!(buf.line_len(1), Some(2));
}

#[test]
fn write_file_ends_every_line_with_newline() {
    let buf = FileBuffer::from_bytes(b"abc\nde");
    assert_eq!(buf.write_file().unwrap(), "abc\nde\n");
    let empty = FileBuffer::from_bytes(b"");
    assert_eq!(empty.write_file().unwrap(), "");
}

#[test]
fn write_file_encodes_multibyte_characters() {
    let buf = FileBuffer::from_bytes("ä€\n𝄞".as_bytes());
    assert_eq!(buf.write_file().unwrap(), "ä€\n𝄞\n");
}

#[test]
fn write_then_read_round_trip() {
    let buf = FileBuffer::from_bytes("x y\n\nz€\n".as_bytes());
    let text = buf.write_file().unwrap();
    let again = FileBuffer::from_bytes(text.as_bytes());
    assert_eq!(lines_of(&again), lines_of(&buf));
}

#[test]
fn line_len_and_get() {
    let buf = FileBuffer::from_bytes(b"ab\nc");
    assert_eq!(buf.line_len(0), Some(2));
    assert_eq!(buf.line_len(1), Some(1));
    assert_eq!(buf.line_len(2), None);
    assert_eq!(buf.get(0, 1), Some(&'b'));
    assert_eq!(buf.get(1, 1), None);
    assert_eq!(buf.get(5, 0), None);
    assert!(buf.get_line(2).is_none());
}

#[test]
fn get_mut_and_get_line_mut_write_through() {
    let mut buf = FileBuffer::from_bytes(b"ab\nc");
    *buf.get_mut(0, 1).unwrap() = 'z';
    assert!(buf.get_mut(1, 3).is_none());
    buf.get_line_mut(1).unwrap().push('d');
    assert!(buf.get_line_mut(2).is_none());
    assert_eq!(lines_of(&buf), vec!["az", "cd"]);
}

#[test]
fn append_adds_last_line() {
    let mut buf = FileBuffer::from_bytes(b"a");
    buf.append(vec!['x', 'y']);
    assert_eq!(lines_of(&buf), vec!["a", "xy"]);
    assert_eq!(buf.write_file().unwrap(), "a\nxy\n");
}
