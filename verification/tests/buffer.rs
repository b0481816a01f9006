use byte_buffer::{Buffer, Error};
use bytes::BufMut;
use bytes::BytesMut;

#[test]
fn test_buffer_read_write_at_capacity() {
    let mut b = Buffer::new();
    let mut to_write = BytesMut::with_capacity(1);
    to_write.put_u8(1);
    b.write(to_write);
    let read_bytes = b.read(1).unwrap();
    assert_eq!(read_bytes.as_ref(), &[1]);
}

#[test]
fn test_buffer_read_write_exceeds_capacity() {
    let mut b = Buffer::new();
    let mut to_write = BytesMut::with_capacity(1);
    to_write.put_u8(1);
    to_write.put_u8(2);
    b.write(to_write);
    let read_bytes = b.read(1).unwrap();
    assert_eq!(read_bytes.as_ref(), &[1]);
    let read_bytes = b.read(1).unwrap();
    assert_eq!(read_bytes.as_ref(), &[2]);
}

#[test]
fn test_buffer_read_write_multi_write() {
    let mut b = Buffer::new();
    let mut to_write = BytesMut::with_capacity(1);
    to_write.put_u8(1);
    b.write(to_write);
    let mut to_write = BytesMut::with_capacity(1);
    to_write.put_u8(2);
    b.write(to_write);
    let read_bytes = b.read(1).unwrap();
    assert_eq!(read_bytes.as_ref(), &[1]);
    let read_bytes = b.read(1).unwrap();
    assert_eq!(read_bytes.as_ref(), &[2]);
}

#[test]
fn test_buffer_read_write_close() {
    let mut b = Buffer::new();
    let mut to_write = BytesMut::with_capacity(1);
    to_write.put_u8(1);
    b.write(to_write);
    b.eof();
    let read_bytes = b.read(1).unwrap();
    assert_eq!(read_bytes.as_ref(), &[1]);
    let eof_error = b.read(1).unwrap_err();
    assert_eq!(eof_error, Error::EOF);
}

fn chunk(data: &[u8]) -> BytesMut {
    let mut c = BytesMut::with_capacity(data.len());
    c.put_slice(data);
    c
}

#[test]
fn test_partial_read_short_circuit() {
    // One byte queued, two requested: the one byte comes back at once.
    let mut b = Buffer::new();
    b.write(chunk(&[9]));
    let read_bytes = b.read(2).unwrap();
    assert_eq!(read_bytes.as_ref(), &[9]);
}

#[test]
fn test_read_spans_chunks() {
    // A read larger than the front chunk keeps draining in write order.
    let mut b = Buffer::new();
    b.write(chunk(&[1, 2]));
    b.write(chunk(&[3, 4, 5]));
    let read_bytes = b.read(3).unwrap();
    assert_eq!(read_bytes.as_ref(), &[1, 2, 3]);
    let read_bytes = b.read(9).unwrap();
    assert_eq!(read_bytes.as_ref(), &[4, 5]);
}

#[test]
fn test_exact_size_satisfaction() {
    let mut b = Buffer::new();
    b.write(chunk(&[1, 2, 3, 4]));
    let read_bytes = b.read(2).unwrap();
    assert_eq!(read_bytes.len(), 2);
    assert_eq!(read_bytes.as_ref(), &[1, 2]);
}

#[test]
fn test_read_zero_bytes() {
    let mut b = Buffer::new();
    b.write(chunk(&[1]));
    let read_bytes = b.read(0).unwrap();
    assert_eq!(read_bytes.as_ref(), &[] as &[u8]);
    let read_bytes = b.read(1).unwrap();
    assert_eq!(read_bytes.as_ref(), &[1]);
}

#[test]
fn test_eof_terminality() {
    let mut b = Buffer::new();
    b.write(chunk(&[7]));
    b.eof();
    assert_eq!(b.read(1).unwrap().as_ref(), &[7]);
    assert_eq!(b.read(1).unwrap_err(), Error::EOF);
    assert_eq!(b.read(3).unwrap_err(), Error::EOF);
    assert_eq!(b.read(1).unwrap_err(), Error::EOF);
}

#[test]
fn test_close_then_drain() {
    // Five bytes over two writes, closed, drained two at a time.
    let mut b = Buffer::new();
    b.write(chunk(&[1, 2, 3]));
    b.write(chunk(&[4, 5]));
    b.eof();
    assert_eq!(b.read(2).unwrap().as_ref(), &[1, 2]);
    assert_eq!(b.read(2).unwrap().as_ref(), &[3, 4]);
    assert_eq!(b.read(2).unwrap().as_ref(), &[5]);
    assert_eq!(b.read(1).unwrap_err(), Error::EOF);
}

#[test]
fn test_eof_idempotent() {
    let mut b = Buffer::new();
    b.eof();
    b.eof();
    assert_eq!(b.read(1).unwrap_err(), Error::EOF);
}

#[test]
fn test_empty_chunks_carry_no_bytes() {
    let mut b = Buffer::new();
    b.write(chunk(&[]));
    assert!(!b.has_data());
    b.write(chunk(&[6]));
    assert!(b.has_data());
    let read_bytes = b.read(1).unwrap();
    assert_eq!(read_bytes.as_ref(), &[6]);
}

#[test]
fn test_try_read_would_block() {
    let mut b = Buffer::new();
    assert!(b.try_read(1).is_none());
    b.write(chunk(&[8]));
    let read_bytes = b.try_read(1).unwrap().unwrap();
    assert_eq!(read_bytes.as_ref(), &[8]);
    assert!(b.try_read(2).is_none());
    b.eof();
    assert_eq!(b.try_read(2).unwrap().unwrap_err(), Error::EOF);
}

#[test]
fn test_try_read_zero_never_blocks() {
    let mut b = Buffer::new();
    let read_bytes = b.try_read(0).unwrap().unwrap();
    assert_eq!(read_bytes.as_ref(), &[] as &[u8]);
}

#[test]
fn test_state_getters() {
    let mut b = Buffer::new();
    assert!(!b.closed());
    assert!(!b.has_data());
    b.write(chunk(&[1]));
    assert!(b.has_data());
    b.eof();
    assert!(b.closed());
    assert!(b.has_data());
    b.read(1).unwrap();
    assert!(!b.has_data());
}

#[test]
fn test_error_messages() {
    assert_eq!(Error::EOF.message(), "end of file");
    assert_eq!(Error::Unknown.message(), "unknown data store error");
}
