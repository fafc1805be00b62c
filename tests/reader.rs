use hj::reader::{LineBufferedStdin, ReadError};

#[test]
fn lines_come_back_in_reverse_order_of_unread() {
    let mut r = LineBufferedStdin::new(b"a\nb\nc".to_vec());
    let a = r.read_line();
    let b = r.read_line();
    assert_eq!(a, b"a\n".to_vec());
    assert_eq!(b, b"b\n".to_vec());
    r.unread_line(b);
    r.unread_line(a);
    assert_eq!(r.read_line(), b"a\n".to_vec());
    assert_eq!(r.read_line(), b"b\n".to_vec());
    assert_eq!(r.read_line(), b"c".to_vec());
    assert_eq!(r.read_line(), b"".to_vec());
}

#[test]
fn byte_reads_drain_pushed_lines_in_file_order() {
    let mut r = LineBufferedStdin::new(b"a\nb\nrest".to_vec());
    let a = r.read_line();
    let b = r.read_line();
    r.unread_line(b);
    r.unread_line(a);
    assert_eq!(r.consume_buffer_stack(), b"a\nb\n".to_vec());
    assert_eq!(r.read_to_end(), b"rest".to_vec());
}

#[test]
fn read_exact_length() {
    let mut r = LineBufferedStdin::new(b"ab\ncdef".to_vec());
    let l = r.read_line();
    r.unread_line(l);
    assert_eq!(r.read(5).unwrap(), b"ab\ncd".to_vec());
    assert_eq!(r.read_to_end(), b"ef".to_vec());
}

#[test]
fn read_errors() {
    let mut r = LineBufferedStdin::new(b"ab\ncd".to_vec());
    assert_eq!(r.read(6).unwrap_err(), ReadError::UnexpectedEof);
    let mut r = LineBufferedStdin::new(b"ab\ncd".to_vec());
    let l = r.read_line();
    r.unread_line(l);
    assert_eq!(r.read(1).unwrap_err(), ReadError::LengthBelowBuffered);
}

#[test]
fn eof_probe_keeps_the_line() {
    let mut r = LineBufferedStdin::new(b"x\n".to_vec());
    assert!(!r.is_eof());
    assert_eq!(r.read_line(), b"x\n".to_vec());
    assert!(r.is_eof());
    let mut empty = LineBufferedStdin::new(Vec::new());
    assert!(empty.is_eof());
}
