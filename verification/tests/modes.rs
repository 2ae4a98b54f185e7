use wvi::file_buffer::FileBuffer;
use wvi::modes::insert::Insert;
use wvi::modes::mode_utils::{can_move_cursor, display_cursor, move_cursor};
use wvi::modes::normal::Normal;
use wvi::modes::{Dir2, ModeInit, V2};

#[test]
fn v2_arithmetic() {
    let a = V2::new(3, 5);
    assert_eq!(a.add(&V2::new(1, 2)), V2::new(4, 7));
    assert_eq!(a.sat_sub(&V2::new(4, 2)), V2::new(0, 3));
    assert_eq!(a.clamp(&V2::new(2, 9)), V2::new(2, 5));
    assert_eq!(a.clamp_x(1), V2::new(1, 5));
    assert_eq!(a.clamp_y(4), V2::new(3, 4));
}

#[test]
fn display_cursor_clamps_to_last_character() {
    let buf = FileBuffer::from_bytes(b"abc\nd");
    assert_eq!(display_cursor(&V2::new(10, 0), &buf), V2::new(2, 0));
    assert_eq!(display_cursor(&V2::new(10, 1), &buf), V2::new(0, 1));
    assert_eq!(display_cursor(&V2::new(1, 0), &buf), V2::new(1, 0));
}

#[test]
fn move_up_and_down_stay_in_rows() {
    let buf = FileBuffer::from_bytes(b"abc\nd\nefgh");
    assert_eq!(move_cursor(&V2::new(7, 0), &buf, Dir2::Up), V2::new(7, 0));
    assert_eq!(move_cursor(&V2::new(7, 2), &buf, Dir2::Up), V2::new(7, 1));
    assert_eq!(move_cursor(&V2::new(7, 2), &buf, Dir2::Down), V2::new(7, 2));
    assert_eq!(move_cursor(&V2::new(7, 0), &buf, Dir2::Down), V2::new(7, 1));
}

#[test]
fn move_left_and_right_stay_on_characters() {
    let buf = FileBuffer::from_bytes(b"abc\nd");
    assert_eq!(move_cursor(&V2::new(9, 0), &buf, Dir2::Left), V2::new(1, 0));
    assert_eq!(move_cursor(&V2::new(0, 0), &buf, Dir2::Left), V2::new(0, 0));
    assert_eq!(move_cursor(&V2::new(1, 0), &buf, Dir2::Right), V2::new(2, 0));
    assert_eq!(move_cursor(&V2::new(9, 0), &buf, Dir2::Right), V2::new(2, 0));
    assert_eq!(move_cursor(&V2::new(0, 1), &buf, Dir2::Right), V2::new(0, 1));
}

#[test]
fn vertical_moves_undo_each_other() {
    let buf = FileBuffer::from_bytes(b"abc\nd\nefgh");
    let c = V2::new(2, 1);
    let down = move_cursor(&c, &buf, Dir2::Down);
    assert_eq!(move_cursor(&down, &buf, Dir2::Up), c);
    let up = move_cursor(&c, &buf, Dir2::Up);
    assert_eq!(move_cursor(&up, &buf, Dir2::Down), c);
}

#[test]
fn horizontal_moves_undo_each_other() {
    let buf = FileBuffer::from_bytes(b"abcd");
    let c = V2::new(9, 0);
    let shown = display_cursor(&c, &buf);
    let left = move_cursor(&c, &buf, Dir2::Left);
    assert_eq!(move_cursor(&left, &buf, Dir2::Right), shown);
    let c = V2::new(1, 0);
    let right = move_cursor(&c, &buf, Dir2::Right);
    assert_eq!(move_cursor(&right, &buf, Dir2::Left), display_cursor(&c, &buf));
}

#[test]
fn can_move_cursor_matches_defined_moves() {
    let buf = FileBuffer::from_bytes(b"abc\n\nx");
    assert!(can_move_cursor(&V2::new(0, 0), &buf, Dir2::Up));
    assert!(can_move_cursor(&V2::new(0, 3), &buf, Dir2::Up));
    assert!(!can_move_cursor(&V2::new(0, 4), &buf, Dir2::Up));
    assert!(can_move_cursor(&V2::new(0, 9), &buf, Dir2::Down));
    assert!(!can_move_cursor(&V2::new(0, usize::MAX), &buf, Dir2::Down));
    assert!(!can_move_cursor(&V2::new(0, 1), &buf, Dir2::Left));
    assert!(can_move_cursor(&V2::new(0, 2), &buf, Dir2::Right));
    assert!(!can_move_cursor(&V2::new(0, 3), &buf, Dir2::Right));
    let empty = FileBuffer::from_bytes(b"");
    assert!(!can_move_cursor(&V2::new(0, 0), &empty, Dir2::Down));
    assert!(!can_move_cursor(&V2::new(0, 0), &empty, Dir2::Up));
}

#[test]
fn insert_and_normal_modes_move_their_cursor() {
    let buf = FileBuffer::from_bytes(b"hello\nworld");
    let mut ins = Insert::new(ModeInit { cursor_pos: V2::new(0, 0) });
    ins.move_cursor(&buf, Dir2::Right);
    ins.move_cursor(&buf, Dir2::Down);
    assert_eq!(ins.display_cursor(&buf), V2::new(1, 1));
    let mut nor = Normal::new(V2::new(4, 1));
    nor.move_cursor(&buf, Dir2::Up);
    nor.move_cursor(&buf, Dir2::Left);
    assert_eq!(nor.display_cursor(&buf), V2::new(3, 0));
}
