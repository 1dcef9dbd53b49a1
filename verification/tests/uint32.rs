use cdb::uint32::{pack, pack2, unpack, unpack2};

#[test]
fn unpack_reads_lowest_byte_first() {
    assert_eq!(unpack(&[0x78, 0x56, 0x34, 0x12]), 0x1234_5678);
    assert_eq!(unpack(&[0, 0, 0, 0]), 0);
    assert_eq!(unpack(&[0xff, 0xff, 0xff, 0xff]), 0xffff_ffff);
    assert_eq!(unpack(&[1, 0, 0, 0, 9, 9]), 1);
}

#[test]
fn unpack2_reads_two_numbers() {
    assert_eq!(unpack2(&[1, 0, 0, 0, 0, 1, 0, 0]), (1, 256));
    assert_eq!(unpack2(&[0, 8, 0, 0, 6, 0, 0, 0, 7]), (2048, 6));
}

#[test]
fn pack_writes_lowest_byte_first_and_keeps_the_rest() {
    let mut buf = [9u8; 6];
    pack(&mut buf, 0x1234_5678);
    assert_eq!(buf, [0x78, 0x56, 0x34, 0x12, 9, 9]);
}

#[test]
fn pack2_writes_two_numbers_and_keeps_the_rest() {
    let mut buf = [9u8; 9];
    pack2(&mut buf, 2048, 0xffff_ffff);
    assert_eq!(buf, [0, 8, 0, 0, 0xff, 0xff, 0xff, 0xff, 9]);
}

#[test]
fn unpack_undoes_pack() {
    for x in [0u32, 1, 255, 256, 0x1505, 0x8000_0000, 0xffff_ffff] {
        let mut buf = [0u8; 4];
        pack(&mut buf, x);
        assert_eq!(unpack(&buf), x);
    }
}
