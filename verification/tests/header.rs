use libqoi::shared::encode_header;
use libqoi::shared::read_header;
use libqoi::shared::Header;
use libqoi::shared::QoiError;

#[test]
fn can_read_header() {
    assert_eq!(
        read_header(&[
            b'q', b'o', b'i', b'f', 0x00, 0x00, 0x00, 15, 0x00, 0x00, 0x00, 24, 3, 1, 0xFF
        ]),
        Ok((
            Header {
                height: 24,
                width: 15,
                channel_count: 3,
                color_space: 1
            },
            &[0xff][..]
        ))
    );
}

#[test]
fn header_of_exactly_fourteen_bytes() {
    assert_eq!(
        read_header(&[b'q', b'o', b'i', b'f', 0, 0, 0, 15, 0, 0, 0, 24, 3, 1]),
        Ok((
            Header {
                height: 24,
                width: 15,
                channel_count: 3,
                color_space: 1
            },
            &[][..]
        ))
    );
}

#[test]
fn header_bytes_are_magic_width_height_channels_space() {
    let mut dst = vec![9u8];
    encode_header(
        Header {
            height: 0x0102_0304,
            width: 0xa0b0_c0d0,
            channel_count: 4,
            color_space: 7,
        },
        &mut dst,
    );
    assert_eq!(
        dst,
        vec![9, b'q', b'o', b'i', b'f', 0xa0, 0xb0, 0xc0, 0xd0, 1, 2, 3, 4, 4, 7]
    );
}

#[test]
fn header_round_trip_keeps_what_follows() {
    let heads = [
        Header { height: 0, width: 0, channel_count: 0, color_space: 0 },
        Header { height: 1, width: 2, channel_count: 3, color_space: 1 },
        Header { height: u32::MAX, width: u32::MAX, channel_count: 255, color_space: 255 },
        Header { height: 0x1234_5678, width: 0x9abc_def0, channel_count: 4, color_space: 3 },
        Header { height: 256, width: 65_536, channel_count: 4, color_space: 0 },
    ];
    for head in heads {
        let mut bytes = Vec::new();
        encode_header(head, &mut bytes);
        assert_eq!(bytes.len(), 14);
        bytes.push(0xfe);
        bytes.push(0x01);
        assert_eq!(read_header(&bytes), Ok((head, &[0xfe, 0x01][..])));
    }
}

#[test]
fn header_fields_are_not_range_checked() {
    assert_eq!(
        read_header(&[b'q', b'o', b'i', b'f', 0, 0, 0, 0, 0, 0, 0, 0, 200, 99]),
        Ok((
            Header { height: 0, width: 0, channel_count: 200, color_space: 99 },
            &[][..]
        ))
    );
}

#[test]
fn wrong_magic_is_header_invalid() {
    assert_eq!(
        read_header(&[b'x', b'x', b'x', b'x', 0, 0, 0, 15, 0, 0, 0, 24, 3, 1, 0xff]),
        Err(QoiError::HeaderInvalid)
    );
    assert_eq!(
        read_header(&[b'q', b'o', b'i', b'g', 0, 0, 0, 15, 0, 0, 0, 24, 3, 1]),
        Err(QoiError::HeaderInvalid)
    );
    assert_eq!(
        read_header(&[b'Q', b'o', b'i', b'f', 0, 0, 0, 15, 0, 0, 0, 24, 3, 1]),
        Err(QoiError::HeaderInvalid)
    );
}

#[test]
fn short_header_is_header_invalid() {
    assert_eq!(read_header(&[]), Err(QoiError::HeaderInvalid));
    assert_eq!(read_header(&[b'q', b'o', b'i', b'f']), Err(QoiError::HeaderInvalid));
    assert_eq!(
        read_header(&[b'q', b'o', b'i', b'f', 0, 0, 0, 15, 0, 0, 0, 24, 3]),
        Err(QoiError::HeaderInvalid)
    );
}
