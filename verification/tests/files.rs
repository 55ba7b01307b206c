use lstd::io::{filled_part, File, FileMode, FileSeek};

#[test]
fn host_modes_are_binary_and_terminated() {
    assert_eq!(&FileMode::Read.host_mode(), b"rb\0");
    assert_eq!(&FileMode::Write.host_mode(), b"wb\0");
    assert_eq!(&FileMode::Append.host_mode(), b"ab\0");
}

#[test]
fn a_file_opened_for_writing_cannot_be_read() {
    assert!(FileMode::Read.can_read());
    assert!(!FileMode::Write.can_read());
    assert!(FileMode::Append.can_read());
}

#[test]
fn a_file_opened_for_reading_cannot_be_written() {
    assert!(!FileMode::Read.can_write());
    assert!(FileMode::Write.can_write());
    assert!(FileMode::Append.can_write());
}

#[test]
fn a_read_of_nothing_hands_out_nothing() {
    let buf = [1u8, 2, 3, 4];
    assert_eq!(filled_part(&buf, 0), None);
    let empty: [u8; 0] = [];
    assert_eq!(filled_part(&empty, 0), None);
}

#[test]
fn a_read_hands_out_the_bytes_that_were_filled() {
    let buf = [1u8, 2, 3, 4];
    assert_eq!(filled_part(&buf, 1), Some(&buf[0..1]));
    assert_eq!(filled_part(&buf, 3), Some(&[1u8, 2, 3][..]));
    assert_eq!(filled_part(&buf, 4), Some(&buf[..]));
}

#[test]
fn seek_origins_are_distinct() {
    assert_ne!(FileSeek::Start, FileSeek::Cur);
    assert_ne!(FileSeek::Cur, FileSeek::End);
    assert_ne!(FileSeek::Start, FileSeek::End);
}

#[test]
fn the_null_handle_is_no_file() {
    assert!(File::from_handle(0, FileMode::Read).is_none());
    assert!(File::from_handle(0, FileMode::Append).is_none());
}

#[test]
fn an_open_file_keeps_its_handle_and_mode() {
    let file = File::from_handle(4096, FileMode::Append).unwrap();
    assert_eq!(file.handle(), 4096);
    assert_eq!(file.mode(), FileMode::Append);
    let file = File::from_handle(usize::MAX, FileMode::Write).unwrap();
    assert_eq!(file.handle(), usize::MAX);
    assert_eq!(file.mode(), FileMode::Write);
    assert!(!file.mode().can_read());
}
