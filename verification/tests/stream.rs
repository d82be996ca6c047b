use clvmr::stream::{Cursor, Error, ErrorKind};

#[test]
fn test_cursor_reads_front_to_back() {
    let data = [1u8, 2, 3, 4, 5];
    let mut f = Cursor::new(&data);
    assert_eq!(f.position(), 0);
    assert_eq!(f.remaining(), 5);
    assert_eq!(f.get_ref(), &data);
    assert_eq!(f.read_u8().unwrap(), 1);
    assert_eq!(f.position(), 1);
    assert_eq!(f.read_exact(3).unwrap(), &[2, 3, 4]);
    assert_eq!(f.position(), 4);
    assert_eq!(f.remaining(), 1);
    assert_eq!(f.read_exact(0).unwrap(), &[] as &[u8]);
    assert_eq!(f.read_u8().unwrap(), 5);
    assert_eq!(f.remaining(), 0);
    assert_eq!(f.get_ref(), &data);
}

#[test]
fn test_cursor_at_the_end() {
    let mut f = Cursor::new(&[]);
    let e = f.read_u8().unwrap_err();
    assert_eq!(e, Error::UnexpectedEof);
    assert_eq!(e.kind(), ErrorKind::UnexpectedEof);
    assert_eq!(f.position(), 0);
    assert_eq!(f.read_exact(0).unwrap(), &[] as &[u8]);
}

#[test]
fn test_cursor_asked_for_too_much() {
    let data = [1u8, 2, 3];
    let mut f = Cursor::new(&data);
    assert_eq!(f.read_u8().unwrap(), 1);
    // more than is left: nothing is read and the cursor moves to the end
    assert_eq!(f.read_exact(3).unwrap_err(), Error::UnexpectedEof);
    assert_eq!(f.position(), 3);
    assert_eq!(f.read_u8().unwrap_err(), Error::UnexpectedEof);
    let mut f = Cursor::new(&data);
    assert_eq!(f.read_exact(u64::MAX).unwrap_err(), Error::UnexpectedEof);
    assert_eq!(f.position(), 3);
}
