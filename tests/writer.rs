use tlv::{Error, TlvReader, TlvWriter};

fn counting(n: usize) -> Vec<u8> {
    (0..n).map(|i| i as u8).collect()
}

#[test]
fn tlv_writer() {
    let buf = counting(25);
    let mut tlv = TlvWriter::new(Vec::new());
    tlv.write(buf.as_slice()).unwrap();
    let result = tlv.into_inner();

    assert_eq!(0xf1u8, result[0]);
    assert_eq!(0x19u8, result[1]);
    assert_eq!(buf.as_slice(), &result[2..]);
}

#[test]
fn tlv_writer_zero() {
    let mut tlv = TlvWriter::new(Vec::new());
    tlv.write(&[][..]).unwrap();
    let result = tlv.into_inner();

    assert_eq!(0xf0u8, result[0]);
}

#[test]
fn tlv_writer_one() {
    let buf = counting(1);
    let mut tlv = TlvWriter::new(Vec::new());
    tlv.write(buf.as_slice()).unwrap();
    let result = tlv.into_inner();

    assert_eq!(0xf1u8, result[0]);
    assert_eq!(0x01u8, result[1]);
    assert_eq!(buf.as_slice(), &result[2..]);
}

#[test]
fn tlv_writer_many() {
    let buf = counting(65536);
    let mut tlv = TlvWriter::new(Vec::new());
    tlv.write(buf.as_slice()).unwrap();
    let result = tlv.into_inner();

    assert_eq!(0xf4u8, result[0]);
    assert_eq!(&[0x00u8, 0x00, 0x01, 0x00], &result[1..5]);
    assert_eq!(buf.as_slice(), &result[5..]);
}

#[test]
fn empty_payload_is_one_byte() {
    let mut tlv = TlvWriter::new(Vec::new());
    assert_eq!(tlv.write(&[]), Ok(0));
    assert_eq!(tlv.into_inner(), vec![0xf0u8]);
}

#[test]
fn write_returns_payload_length() {
    let mut tlv = TlvWriter::new(Vec::new());
    assert_eq!(tlv.write(&counting(300)), Ok(300));
    let out = tlv.into_inner();
    assert_eq!(out.len(), 3 + 300);
    assert_eq!(&out[..3], &[0xf2u8, 0x2c, 0x01]);
}

#[test]
fn length_class_boundaries() {
    let cases: [(usize, usize, Vec<u8>); 7] = [
        (0, 0, vec![0xf0]),
        (1, 1, vec![0xf1, 0x01]),
        (255, 1, vec![0xf1, 0xff]),
        (256, 2, vec![0xf2, 0x00, 0x01]),
        (65535, 2, vec![0xf2, 0xff, 0xff]),
        (65536, 4, vec![0xf4, 0x00, 0x00, 0x01, 0x00]),
        (1usize << 32, 8, vec![0xf8, 0, 0, 0, 0, 1, 0, 0, 0]),
    ];
    for (len, class, header) in cases.iter() {
        let mut out = Vec::new();
        assert_eq!(TlvWriter::bytes_len_to_writer(&mut out, *len), Ok(*class));
        assert_eq!(&out, header);
    }
}

#[test]
fn header_appends_after_existing_bytes() {
    let mut out = vec![0xaau8];
    assert_eq!(TlvWriter::bytes_len_to_writer(&mut out, 70000), Ok(4));
    assert_eq!(out, vec![0xaa, 0xf4, 0x70, 0x11, 0x01, 0x00]);
}

#[test]
fn bytes_to_writer_frames_buffer() {
    let mut out = Vec::new();
    assert_eq!(TlvWriter::bytes_to_writer(&mut out, &[7, 8, 9]), Ok(3));
    assert_eq!(out, vec![0xf1, 0x03, 7, 8, 9]);
}

#[test]
fn write_usize_is_eight_bytes() {
    let mut tlv = TlvWriter::new(Vec::new());
    assert_eq!(tlv.write_usize(0x0102), Ok(8));
    assert_eq!(tlv.into_inner(), vec![0xf1, 0x08, 0x02, 0x01, 0, 0, 0, 0, 0, 0]);
}

#[test]
fn write_uint_takes_low_bytes() {
    let mut tlv = TlvWriter::new(Vec::new());
    assert_eq!(tlv.write_uint(0x1234_5678, 2), Ok(2));
    assert_eq!(tlv.into_inner(), vec![0xf1, 0x02, 0x78, 0x56]);
}

#[test]
fn write_bool_and_char() {
    let mut tlv = TlvWriter::new(Vec::new());
    tlv.write_bool(true).unwrap();
    tlv.write_bool(false).unwrap();
    tlv.write_char('\u{141}').unwrap();
    assert_eq!(
        tlv.into_inner(),
        vec![0xf1, 0x01, 0x01, 0xf1, 0x01, 0x00, 0xf1, 0x01, 0x41]
    );
}

#[test]
fn write_nested_frames_inner_output() {
    let mut inner = TlvWriter::new(Vec::new());
    inner.write(&[5, 6]).unwrap();
    let mut outer = TlvWriter::new(Vec::new());
    assert_eq!(outer.write_nested(inner), Ok(4));
    assert_eq!(outer.into_inner(), vec![0xf1, 0x04, 0xf1, 0x02, 5, 6]);
}

#[test]
fn write_list_wire_shape() {
    let mut tlv = TlvWriter::new(Vec::new());
    let list = vec![vec![1u8], vec![], vec![2, 3]];
    assert_eq!(tlv.write_list(&list), Ok(8));
    assert_eq!(
        tlv.into_inner(),
        vec![0xf1, 0x08, 0xf1, 0x01, 1, 0xf0, 0xf1, 0x02, 2, 3]
    );
}

#[test]
fn reencoding_a_decoded_frame_is_identical() {
    let mut tlv = TlvWriter::new(Vec::new());
    tlv.write(&counting(300)).unwrap();
    let first = tlv.into_inner();

    let mut reader = TlvReader::new(first.clone());
    let payload = reader.next().unwrap().unwrap();

    let mut again = TlvWriter::new(Vec::new());
    again.write(&payload).unwrap();
    assert_eq!(again.into_inner(), first);
}

#[test]
fn error_values_compare() {
    assert_ne!(Error::UnexpectedEof, Error::BufferTooSmall);
    assert_eq!(Error::Unsupported, Error::Unsupported);
}
