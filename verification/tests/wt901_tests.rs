use copper::wt901::{get_vec_i16, get_vec_u16, Registers};

#[test]
fn register_offsets_step_by_two_bytes() {
    assert_eq!(Registers::AccX.offset(), 0);
    assert_eq!(Registers::AccY.offset(), 2);
    assert_eq!(Registers::GyroX.offset(), 6);
    assert_eq!(Registers::MagZ.offset(), 16);
    assert_eq!(Registers::Yaw.offset(), 22);
    assert_eq!(Registers::AccX.address(), 0x34);
    assert_eq!(Registers::Yaw.address(), 0x3f);
}

#[test]
fn words_are_read_little_endian() {
    let buf = [0x34u8, 0x12, 0xff, 0xff, 0x00, 0x80];
    assert_eq!(get_vec_u16(&buf, 0), 0x1234);
    assert_eq!(get_vec_u16(&buf, 2), 0xffff);
    assert_eq!(get_vec_i16(&buf, 0), 0x1234);
    assert_eq!(get_vec_i16(&buf, 2), -1);
    assert_eq!(get_vec_i16(&buf, 4), i16::MIN);
}
