use pumpkin_voice::wire::{
    get_byte_array, get_i16, get_i32, get_i64, get_string, get_uuid, get_varint, put_be,
    put_bool, put_byte_array, put_i16, put_i32, put_i64, put_string, put_u64, put_uuid,
    put_varint,
};

fn varint(v: u32) -> Vec<u8> {
    let mut out = Vec::new();
    put_varint(&mut out, v);
    out
}

#[test]
fn varint_known_encodings() {
    assert_eq!(varint(0), vec![0x00]);
    assert_eq!(varint(1), vec![0x01]);
    assert_eq!(varint(127), vec![0x7f]);
    assert_eq!(varint(128), vec![0x80, 0x01]);
    assert_eq!(varint(300), vec![0xac, 0x02]);
    assert_eq!(varint(25565), vec![0xdd, 0xc7, 0x01]);
    assert_eq!(varint(u32::MAX), vec![0xff, 0xff, 0xff, 0xff, 0x0f]);
}

#[test]
fn varint_reads_back() {
    for v in [0u32, 1, 127, 128, 255, 300, 16383, 16384, 2097151, 0x7fff_ffff, u32::MAX] {
        let mut bytes = varint(v);
        let n = bytes.len();
        bytes.extend_from_slice(&[9, 9, 9]);
        assert_eq!(get_varint(&bytes, 0), Some((v, n)));
    }
}

#[test]
fn varint_refuses_unterminated_and_overlong() {
    assert_eq!(get_varint(&[0x80, 0x80], 0), None);
    assert_eq!(get_varint(&[], 0), None);
    assert_eq!(get_varint(&[0x80, 0x80, 0x80, 0x80, 0x80, 0x01], 0), None);
    // A fifth byte's bits beyond 32 are dropped.
    assert_eq!(get_varint(&[0xff, 0xff, 0xff, 0xff, 0x7f], 0), Some((u32::MAX, 5)));
}

#[test]
fn signed_integers_are_big_endian_twos_complement() {
    let mut out = Vec::new();
    put_i16(&mut out, -2);
    put_i32(&mut out, -1);
    put_i32(&mut out, 24454);
    put_i64(&mut out, i64::MIN);
    assert_eq!(
        out,
        vec![
            0xff, 0xfe, 0xff, 0xff, 0xff, 0xff, 0x00, 0x00, 0x5f, 0x86, 0x80, 0, 0, 0, 0, 0, 0, 0
        ]
    );
    assert_eq!(get_i16(&out, 0), Some((-2, 2)));
    assert_eq!(get_i32(&out, 2), Some((-1, 6)));
    assert_eq!(get_i32(&out, 6), Some((24454, 10)));
    assert_eq!(get_i64(&out, 10), Some((i64::MIN, 18)));
    assert_eq!(get_i64(&out, 11), None);
}

#[test]
fn u64_and_fixed_width() {
    let mut out = Vec::new();
    put_u64(&mut out, 48.0f64.to_bits());
    assert_eq!(out, vec![0x40, 0x48, 0, 0, 0, 0, 0, 0]);
    let mut out = Vec::new();
    put_be(&mut out, 0x0102_0304, 3);
    assert_eq!(out, vec![0x02, 0x03, 0x04]);
}

#[test]
fn uuid_is_sixteen_big_endian_bytes() {
    let id: u128 = 0xa1a2a3a4_b1b2_c1c2_d1d2_d3d4d5d6d7d8;
    let mut out = Vec::new();
    put_uuid(&mut out, id);
    assert_eq!(
        out,
        vec![
            0xa1, 0xa2, 0xa3, 0xa4, 0xb1, 0xb2, 0xc1, 0xc2, 0xd1, 0xd2, 0xd3, 0xd4, 0xd5, 0xd6,
            0xd7, 0xd8
        ]
    );
    assert_eq!(get_uuid(&out, 0), Some((id, 16)));
    assert_eq!(get_uuid(&out, 1), None);
}

#[test]
fn strings_are_length_prefixed_utf8() {
    let mut out = Vec::new();
    put_string(&mut out, "h\u{e9}llo");
    assert_eq!(out, vec![6, b'h', 0xc3, 0xa9, b'l', b'l', b'o']);
    assert_eq!(get_string(&out, 0), Some(("h\u{e9}llo".to_string(), 7)));
    let mut empty = Vec::new();
    put_string(&mut empty, "");
    assert_eq!(empty, vec![0]);
    assert_eq!(get_string(&empty, 0), Some((String::new(), 1)));
}

#[test]
fn strings_refuse_bad_utf8_and_short_input() {
    assert_eq!(get_string(&[2, 0xc3, 0x28], 0), None);
    assert_eq!(get_string(&[5, b'a', b'b'], 0), None);
    // A length field that is negative as a signed 32-bit number.
    assert_eq!(get_string(&[0xff, 0xff, 0xff, 0xff, 0x0f], 0), None);
}

#[test]
fn byte_arrays_round_trip() {
    let mut out = Vec::new();
    put_byte_array(&mut out, &[1, 2, 3]);
    put_bool(&mut out, true);
    assert_eq!(out, vec![3, 1, 2, 3, 1]);
    assert_eq!(get_byte_array(&out, 0), Some((vec![1, 2, 3], 4)));
    assert_eq!(get_byte_array(&[4, 1, 2, 3], 0), None);
}
