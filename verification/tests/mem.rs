use lethe::sanitization::mem::padding;
use lethe::sanitization::mem::AlignedBuffer;

#[test]
fn test_aligned_allocation() {
    let size = 65536;
    let align = 4096;

    let mut buf = AlignedBuffer::new(size, align);

    assert_eq!(buf.as_mut_slice().len(), size);
    assert_eq!(buf.as_mut_slice().as_ptr() as usize % align, 0);
}

#[test]
fn test_vec_fill() {
    let mut buf = AlignedBuffer::new(1024, 1024);

    buf.fill(0xff);
    assert_eq!(buf.as_mut_slice().iter().filter(|x| **x != 0xff).count(), 0);

    buf.fill(0x11);
    assert_eq!(buf.as_mut_slice().iter().filter(|x| **x != 0x11).count(), 0);
}

#[test]
fn test_buffer_starts_zeroed() {
    let buf = AlignedBuffer::new(777, 512);
    assert_eq!(buf.len(), 777);
    assert!(buf.as_slice().iter().all(|x| *x == 0));
    assert_eq!(buf.as_slice().as_ptr() as usize % 512, 0);
}

#[test]
fn test_buffer_aligns_to_any_size() {
    for align in [1usize, 3, 512, 1000, 4096] {
        let buf = AlignedBuffer::new(100, align);
        assert_eq!(buf.as_slice().as_ptr() as usize % align, 0);
        assert_eq!(buf.as_slice().len(), 100);
    }
}

#[test]
fn test_buffer_keeps_what_is_written() {
    let mut buf = AlignedBuffer::new(16, 8);
    buf.as_mut_slice()[3] = 9;
    buf.as_mut_slice()[15] = 7;
    assert_eq!(buf.as_slice()[3], 9);
    assert_eq!(buf.as_slice()[15], 7);
    assert_eq!(buf.as_slice()[0], 0);
}

#[test]
fn test_padding() {
    assert_eq!(padding(0, 512), 0);
    assert_eq!(padding(1, 512), 511);
    assert_eq!(padding(512, 512), 0);
    assert_eq!(padding(1000, 512), 24);
    assert_eq!(padding(7, 3), 2);
}
