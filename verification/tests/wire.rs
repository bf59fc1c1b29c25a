use sand::dns::wire::{push_bytes, push_u16, push_u32, read_u16};

#[test]
fn numbers_are_written_most_significant_byte_first() {
    let mut buf: Vec<u8> = vec![9];
    push_u16(&mut buf, 0x0102);
    push_u32(&mut buf, 0x03040506);
    push_bytes(&mut buf, &[7, 8]);
    assert_eq!(buf, vec![9, 1, 2, 3, 4, 5, 6, 7, 8]);
}

#[test]
fn a_16_bit_number_is_read_back() {
    for v in [0u16, 1, 255, 256, 0x8001, u16::MAX] {
        let mut buf: Vec<u8> = vec![7];
        push_u16(&mut buf, v);
        assert_eq!(read_u16(&buf, 1), v);
    }
}
