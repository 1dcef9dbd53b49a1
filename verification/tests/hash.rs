use cdb::hash::{add, hash};

#[test]
fn samples() {
    assert_eq!(hash(b""), 0x0001505);
    assert_eq!(hash(b"Hello, world!"), 0x564369e8);
    assert_eq!(hash(b"aaaaaaaaaaaaaaaaaaaaaaaaaaaaaaaa"), 0x40032705);
}

#[test]
fn add_multiplies_by_33_and_xors() {
    assert_eq!(add(0x1505, b'a'), (0x1505u32 * 33) ^ 0x61);
    assert_eq!(add(0, 0), 0);
    assert_eq!(add(1, 0), 33);
    assert_eq!(add(0, 0xff), 0xff);
}

#[test]
fn add_wraps_at_32_bits() {
    assert_eq!(add(0xffff_ffff, 0), 0xffff_ffdf);
    assert_eq!(add(0x8000_0000, 1), 0x8000_0001);
}

#[test]
fn hash_folds_add_from_the_left() {
    let mut h = 0x1505;
    for c in b"two" {
        h = add(h, *c);
    }
    assert_eq!(hash(b"two"), h);
}
