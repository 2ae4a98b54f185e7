use wvi::buffer_map::BufferMap;
use wvi::file_buffer::FileBuffer;

fn text(b: &FileBuffer) -> String {
    b.write_file().unwrap()
}

#[test]
fn get_after_add_gives_the_buffer() {
    let mut m = BufferMap::new();
    let name = String::from("main.rs");
    assert!(m.add_buffer(&name, FileBuffer::from_bytes(b"fn main")).is_none());
    assert_eq!(text(m.get_buffer(&name).unwrap()), "fn main\n");
    assert!(m.get_buffer(&String::from("other")).is_none());
}

#[test]
fn add_replaces_and_hands_back_old_buffer() {
    let mut m = BufferMap::new();
    assert!(m.add_buffer_owned(String::from("a"), FileBuffer::from_bytes(b"1")).is_none());
    let old = m.add_buffer_owned(String::from("a"), FileBuffer::from_bytes(b"2")).unwrap();
    assert_eq!(text(&old), "1\n");
    assert_eq!(text(m.get_buffer(&String::from("a")).unwrap()), "2\n");
}

#[test]
fn remove_after_add_of_new_name() {
    let mut m = BufferMap::new();
    let a = String::from("a");
    let b = String::from("b");
    m.add_buffer(&a, FileBuffer::from_bytes(b"x"));
    m.add_buffer(&b, FileBuffer::from_bytes(b"y"));
    let removed = m.rm_buffer(&a).unwrap();
    assert_eq!(text(&removed), "x\n");
    assert!(m.get_buffer(&a).is_none());
    assert!(m.rm_buffer(&a).is_none());
    assert_eq!(text(m.get_buffer(&b).unwrap()), "y\n");
}

#[test]
fn get_mut_buffer_writes_through() {
    let mut m = BufferMap::new();
    let a = String::from("a");
    m.add_buffer(&a, FileBuffer::from_bytes(b"x"));
    m.get_mut_buffer(&a).unwrap().append(vec!['y']);
    assert!(m.get_mut_buffer(&String::from("none")).is_none());
    assert_eq!(text(m.get_buffer(&a).unwrap()), "x\ny\n");
}
