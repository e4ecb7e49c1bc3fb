use libqoi::shared::add_hash_and_last;
use libqoi::shared::color_hash;
use libqoi::shared::Part;
use libqoi::shared::QoiError;

fn check_round_trip(part: Part) {
    let mut v = vec![];
    assert!(part.is_valid());
    part.encode(&mut v);
    v.push(0);
    assert_eq!(Part::decode(&v[..]), Ok((&[0][..], part)));
}

fn check_round_trip_shown(part: Part) {
    let mut v = vec![];
    part.encode(&mut v);
    v.push(0);
    println!("{:?}", v);
    assert_eq!(Part::decode(&v[..]), Ok((&[0][..], part)));
}

fn wire(part: Part) -> Vec<u8> {
    let mut v = vec![];
    part.encode(&mut v);
    v
}

#[test]
fn decoding() {
    assert_eq!(Part::decode(&[0xff, 1, 2, 3, 4, 5]), Ok((&[5][..], Part::RGBA(1, 2, 3, 4))));
    assert_eq!(Part::decode(&[0xfe, 1, 2, 3, 4]), Ok((&[4][..], Part::RGB(1, 2, 3))));
    assert_eq!(Part::decode(&[0b0000_1111, 4]), Ok((&[4][..], Part::Idx(15))));
    assert_eq!(Part::decode(&[0b0100_0110, 4]), Ok((&[4][..], Part::SmallDiff(-2, -1, 0))));
    assert_eq!(
        Part::decode(&[0b10_100000, 0b1000_0100, 4]),
        Ok((&[4][..], Part::LumaDiff(0, 0, -4)))
    );
    assert_eq!(Part::decode(&[0b1100_1111, 4]), Ok((&[4][..], Part::Run(16))));
}

#[test]
fn encoding() {
    check_round_trip_shown(Part::RGBA(0, 1, 2, 2));
    check_round_trip_shown(Part::RGB(0, 1, 2));
    check_round_trip_shown(Part::LumaDiff(0, 31, 2));
    check_round_trip_shown(Part::SmallDiff(-1, 1, 0));
    check_round_trip_shown(Part::Idx(10));
    check_round_trip_shown(Part::Run(10));
}

#[test]
fn boundary_chunks_round_trip() {
    check_round_trip(Part::Run(1));
    check_round_trip(Part::Run(62));
    check_round_trip(Part::SmallDiff(-2, -2, -2));
    check_round_trip(Part::SmallDiff(1, 1, 1));
    check_round_trip(Part::LumaDiff(-8, -32, -8));
    check_round_trip(Part::LumaDiff(7, 31, 7));
    check_round_trip(Part::Idx(0));
    check_round_trip(Part::Idx(63));
    check_round_trip(Part::RGBA(255, 254, 0, 255));
    check_round_trip(Part::RGB(255, 254, 0));
}

#[test]
fn every_valid_chunk_round_trips() {
    for len in 1..=62u8 {
        check_round_trip(Part::Run(len));
    }
    for i in 0..64u8 {
        check_round_trip(Part::Idx(i));
    }
    for dr in -2..=1i8 {
        for dg in -2..=1i8 {
            for db in -2..=1i8 {
                check_round_trip(Part::SmallDiff(dr, dg, db));
            }
        }
    }
    for drdg in -8..=7i8 {
        for dg in -32..=31i8 {
            for dbdg in -8..=7i8 {
                check_round_trip(Part::LumaDiff(drdg, dg, dbdg));
            }
        }
    }
}

#[test]
fn every_first_byte_decodes_to_a_valid_chunk() {
    for first in 0..=255u8 {
        let data = [first, 0x12, 0x34, 0x56, 0x78, 0x9a];
        let (rest, part) = Part::decode(&data).unwrap();
        assert!(part.is_valid());
        let mut again = wire(part);
        again.extend_from_slice(rest);
        assert_eq!(again, data.to_vec());
    }
}

#[test]
fn chunk_wire_bytes() {
    assert_eq!(wire(Part::RGBA(1, 2, 3, 4)), vec![0xff, 1, 2, 3, 4]);
    assert_eq!(wire(Part::RGB(1, 2, 3)), vec![0xfe, 1, 2, 3]);
    assert_eq!(wire(Part::Idx(0)), vec![0x00]);
    assert_eq!(wire(Part::Idx(63)), vec![0x3f]);
    assert_eq!(wire(Part::SmallDiff(-2, -2, -2)), vec![0b0100_0000]);
    assert_eq!(wire(Part::SmallDiff(1, 1, 1)), vec![0b0111_1111]);
    assert_eq!(wire(Part::SmallDiff(-2, -1, 0)), vec![0b0100_0110]);
    assert_eq!(wire(Part::LumaDiff(-8, -32, -8)), vec![0b1000_0000, 0b0000_0000]);
    assert_eq!(wire(Part::LumaDiff(7, 31, 7)), vec![0b1011_1111, 0b1111_1111]);
    assert_eq!(wire(Part::LumaDiff(0, 0, -4)), vec![0b1010_0000, 0b1000_0100]);
    assert_eq!(wire(Part::Run(1)), vec![0b1100_0000]);
    assert_eq!(wire(Part::Run(16)), vec![0b1100_1111]);
    assert_eq!(wire(Part::Run(62)), vec![0b1111_1101]);
}

#[test]
fn encode_appends_to_what_is_there() {
    let mut v = vec![7u8, 8];
    Part::Run(3).encode(&mut v);
    Part::RGB(1, 2, 3).encode(&mut v);
    assert_eq!(v, vec![7, 8, 0b1100_0010, 0xfe, 1, 2, 3]);
}

#[test]
fn full_byte_tags_come_before_two_bit_tags() {
    assert_eq!(Part::decode(&[0xfd]), Ok((&[][..], Part::Run(62))));
    assert_eq!(Part::decode(&[0xfe, 9, 8, 7]), Ok((&[][..], Part::RGB(9, 8, 7))));
    assert_eq!(Part::decode(&[0xff, 9, 8, 7, 6]), Ok((&[][..], Part::RGBA(9, 8, 7, 6))));
}

#[test]
fn chunk_cut_short_is_stream_truncated() {
    assert_eq!(Part::decode(&[]), Err(QoiError::StreamTruncated));
    assert_eq!(Part::decode(&[0xff]), Err(QoiError::StreamTruncated));
    assert_eq!(Part::decode(&[0xff, 1, 2, 3]), Err(QoiError::StreamTruncated));
    assert_eq!(Part::decode(&[0xfe]), Err(QoiError::StreamTruncated));
    assert_eq!(Part::decode(&[0xfe, 1, 2]), Err(QoiError::StreamTruncated));
    assert_eq!(Part::decode(&[0b1010_0000]), Err(QoiError::StreamTruncated));
}

#[test]
fn validity_follows_the_field_ranges() {
    assert!(!Part::Run(0).is_valid());
    assert!(!Part::Run(63).is_valid());
    assert!(!Part::Idx(64).is_valid());
    assert!(!Part::SmallDiff(2, 0, 0).is_valid());
    assert!(!Part::SmallDiff(0, -3, 0).is_valid());
    assert!(!Part::LumaDiff(8, 0, 0).is_valid());
    assert!(!Part::LumaDiff(0, 32, 0).is_valid());
    assert!(!Part::LumaDiff(0, 0, -9).is_valid());
    assert!(Part::RGBA(0, 0, 0, 0).is_valid());
}

#[test]
fn color_hash_formula() {
    assert_eq!(color_hash(0, 0, 0, 0), 0);
    assert_eq!(color_hash(0, 0, 0, 255), 53);
    assert_eq!(color_hash(1, 0, 0, 0), 3);
    assert_eq!(color_hash(0, 1, 0, 0), 5);
    assert_eq!(color_hash(0, 0, 1, 0), 7);
    assert_eq!(color_hash(0, 0, 0, 1), 11);
    assert_eq!(color_hash(10, 20, 30, 255), 9);
    assert_eq!(color_hash(255, 255, 255, 255), 38);
}

#[test]
fn add_hash_and_last_overwrites_the_slot() {
    let mut cache = [(0u8, 0u8, 0u8, 0u8); 64];
    let mut last = (0u8, 0u8, 0u8, 255u8);
    add_hash_and_last(10, 20, 30, 255, &mut cache, &mut last);
    assert_eq!(last, (10, 20, 30, 255));
    assert_eq!(cache[9], (10, 20, 30, 255));
    // (3, 0, 0, 0) shares slot 9.
    add_hash_and_last(3, 0, 0, 0, &mut cache, &mut last);
    assert_eq!(last, (3, 0, 0, 0));
    assert_eq!(cache[9], (3, 0, 0, 0));
    for (slot, pixel) in cache.iter().enumerate() {
        if slot != 9 {
            assert_eq!(*pixel, (0, 0, 0, 0));
        }
    }
}
