use bytes_ringbuffer::RingBuffer;

#[test]
fn ringbuffer_init() {
    let buf = RingBuffer::new(16);
    assert_eq!(buf.capacity(), 16);
    assert_eq!(buf.remaining(), 0);
    assert_eq!(buf.remaining_mut(), 16);
}

#[test]
fn ringbuffer_read_write() {
    let mut buf = RingBuffer::new(16);

    // Write 0..6 to buffer
    for i in 0..6 {
        buf.put_u8(i);
    }
    assert_eq!(buf.remaining(), 6);
    assert_eq!(buf.remaining_mut(), 10);
    // Read 0..6 from buffer
    for i in 0..6 {
        assert_eq!(buf.get_u8(), i);
    }

    // Write over the end
    for i in 0..16 {
        buf.put_u8(i);
    }
    assert_eq!(buf.remaining(), 16);
    assert_eq!(buf.remaining_mut(), 0);
    // bytes() should be a slice of length 10
    assert_eq!(buf.bytes().len(), 10);
    for i in 0..10 {
        assert_eq!(buf.get_u8(), i);
    }
    // Now bytes() should be a slice of length 6
    assert_eq!(buf.bytes().len(), 6);
    // Empty the buffer
    for i in 10..16 {
        assert_eq!(buf.get_u8(), i);
    }
}

#[test]
fn ringbuffer_u16_round_trip() {
    let mut buf = RingBuffer::new(4);
    buf.put_u16(1234);
    buf.put_u16(5671);
    assert_eq!(buf.get_u16(), 1234);
    assert_eq!(buf.get_u16(), 5671);
}

#[test]
fn ringbuffer_u16_straddles_wrap() {
    let mut buf = RingBuffer::new(4);
    // Move the cursors so that a two-byte value must wrap: after writing
    // and draining three bytes the write cursor sits one byte before the
    // physical end of storage.
    for i in 0..3 {
        buf.put_u8(i);
    }
    for i in 0..3 {
        assert_eq!(buf.get_u8(), i);
    }
    buf.put_u16(0xABCD);
    assert_eq!(buf.remaining(), 2);
    // The high byte sits at the last physical offset, the low byte at
    // offset zero, so the first peek holds a single byte.
    assert_eq!(buf.bytes().len(), 1);
    assert_eq!(buf.get_u16(), 0xABCD);
}

#[test]
fn ringbuffer_slice_round_trip() {
    let mut buf = RingBuffer::new(8);
    // Shift the cursors so the second write wraps.
    buf.put_slice(&[9, 9, 9, 9, 9]);
    buf.advance(5);
    let data: Vec<u8> = vec![1, 2, 3, 4, 5, 6, 7, 8];
    buf.put_slice(&data);
    assert_eq!(buf.remaining(), 8);
    let mut read: Vec<u8> = Vec::new();
    while buf.remaining() > 0 {
        read.push(buf.get_u8());
    }
    assert_eq!(read, data);
}

#[test]
fn ringbuffer_capacity_conservation() {
    let mut buf = RingBuffer::new(16);
    assert_eq!(buf.remaining() + buf.remaining_mut(), buf.capacity());
    buf.put_slice(&[1, 2, 3, 4, 5]);
    assert_eq!(buf.remaining() + buf.remaining_mut(), buf.capacity());
    buf.advance(2);
    assert_eq!(buf.remaining() + buf.remaining_mut(), buf.capacity());
    buf.put_slice(&[6; 13]);
    assert_eq!(buf.remaining(), 16);
    assert_eq!(buf.remaining() + buf.remaining_mut(), buf.capacity());
    buf.advance(16);
    assert_eq!(buf.remaining() + buf.remaining_mut(), buf.capacity());
}

#[test]
fn ringbuffer_refill_reads_fresh_data() {
    let mut buf = RingBuffer::new(8);
    let first: Vec<u8> = vec![10, 11, 12, 13, 14, 15, 16, 17];
    buf.put_slice(&first);
    for b in &first {
        assert_eq!(buf.get_u8(), *b);
    }
    assert_eq!(buf.remaining(), 0);
    let second: Vec<u8> = vec![20, 21, 22, 23, 24, 25, 26, 27];
    buf.put_slice(&second);
    for b in &second {
        assert_eq!(buf.get_u8(), *b);
    }
    assert_eq!(buf.remaining(), 0);
}

#[test]
fn ringbuffer_peek_truncation() {
    let mut buf = RingBuffer::new(16);
    buf.put_slice(&[0, 1, 2, 3, 4, 5]);
    buf.advance(6);
    // Read cursor at offset 6: ten bytes of contiguous free space remain
    // before the physical end of storage.
    assert_eq!(buf.writable_chunk_len(), 10);
    let data: Vec<u8> = (0..16).collect();
    buf.put_slice(&data);
    assert_eq!(buf.writable_chunk_len(), 0);
    // The occupied region wraps: the first peek stops at the physical end.
    let first = buf.bytes().to_vec();
    assert_eq!(first.len(), 10);
    assert_eq!(first, &data[..10]);
    buf.advance(10);
    // The second peek holds the wrapped remainder in full.
    let rest = buf.bytes().to_vec();
    assert_eq!(rest.len(), 6);
    assert_eq!(rest, &data[10..]);
}

#[test]
fn ringbuffer_zero_capacity() {
    let mut buf = RingBuffer::new(0);
    assert_eq!(buf.capacity(), 0);
    assert_eq!(buf.remaining(), 0);
    assert_eq!(buf.remaining_mut(), 0);
    assert_eq!(buf.bytes().len(), 0);
    assert_eq!(buf.writable_chunk_len(), 0);
    buf.advance(0);
    buf.put_slice(&[]);
    assert_eq!(buf.remaining(), 0);
}

#[test]
fn ringbuffer_zero_length_ops() {
    let mut buf = RingBuffer::new(4);
    buf.put_slice(&[7, 8]);
    buf.advance(0);
    buf.put_slice(&[]);
    assert_eq!(buf.remaining(), 2);
    assert_eq!(buf.bytes(), &[7, 8]);
}
