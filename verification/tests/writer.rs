use lstd::io::{StringWriter, STRING_BUFFER_SIZE};

#[test]
fn appends_after_reset_read_in_order() {
    let mut writer = StringWriter::new();
    writer.write_str("junk");
    writer.reset_cursor();
    writer.write_str("ab");
    writer.write_str("cd");
    assert_eq!(writer.as_bytes(), b"abcd");
}

#[test]
fn new_writer_holds_nothing() {
    let writer = StringWriter::new();
    assert_eq!(writer.as_bytes(), b"");
    assert_eq!(writer.remaining(), 1024);
    assert_eq!(STRING_BUFFER_SIZE, 1024);
}

#[test]
fn terminator_is_one_nul_byte() {
    let mut writer = StringWriter::new();
    writer.write_str("hi");
    writer.add_terminator();
    assert_eq!(writer.as_bytes(), b"hi\0");
    assert_eq!(writer.remaining(), 1021);
}

#[test]
fn bytes_of_text_beyond_ascii_are_kept() {
    let mut writer = StringWriter::new();
    writer.write_str("né");
    assert_eq!(writer.as_bytes(), "né".as_bytes());
    assert_eq!(writer.as_bytes().len(), 3);
}

#[test]
fn an_empty_text_changes_nothing() {
    let mut writer = StringWriter::new();
    writer.write_str("x");
    writer.write_str("");
    assert_eq!(writer.as_bytes(), b"x");
}

#[test]
fn text_fits_up_to_the_capacity_and_not_beyond() {
    let mut writer = StringWriter::new();
    let most = "m".repeat(1000);
    assert!(writer.fits(&most));
    writer.write_str(&most);
    assert_eq!(writer.remaining(), 24);
    assert!(writer.fits(&"x".repeat(24)));
    assert!(!writer.fits(&"x".repeat(25)));
    writer.write_str(&"x".repeat(24));
    assert_eq!(writer.remaining(), 0);
    assert!(writer.fits(""));
    assert!(!writer.fits("y"));
    assert_eq!(writer.as_bytes().len(), 1024);
    assert_eq!(writer.as_bytes()[999], b'm');
    assert_eq!(writer.as_bytes()[1000], b'x');
    writer.reset_cursor();
    assert!(writer.fits("y"));
    assert_eq!(writer.remaining(), 1024);
}

#[test]
fn reset_lets_the_buffer_be_used_again() {
    let mut writer = StringWriter::new();
    writer.write_str("first message");
    writer.add_terminator();
    writer.reset_cursor();
    assert_eq!(writer.as_bytes(), b"");
    writer.write_str("2nd");
    writer.add_terminator();
    assert_eq!(writer.as_bytes(), b"2nd\0");
}
