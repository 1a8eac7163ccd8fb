use dovi_tool::bits::{BitError, BitReader, BitWriter};
use dovi_tool::convert::{
    convert, convert_mel, convert_p81, crop, validate_options, ConvertError, RpuOptions,
};
use dovi_tool::rpu::{
    decode_rpu, encode_rpu, is_well_formed, ActiveArea, DecodeError, EncodeError, MetadataBlock,
    Profile, RpuRecord,
};

fn area(l: u16, r: u16, t: u16, b: u16) -> ActiveArea {
    ActiveArea { left: l, right: r, top: t, bottom: b }
}

fn p7_record() -> RpuRecord {
    RpuRecord {
        profile: Profile::P7,
        compat_id: 6,
        el_present: true,
        nlq: vec![100, 2000, 65535],
        blocks: vec![
            MetadataBlock { level: 1, values: vec![0, 2048, 4095] },
            MetadataBlock { level: 6, values: vec![1000, 400, 65535, 1] },
        ],
        active_area: area(2, 3, 0, 1),
        checksum: 0,
    }
}

fn same_fields(a: &RpuRecord, b: &RpuRecord) -> bool {
    a.profile == b.profile
        && a.compat_id == b.compat_id
        && a.el_present == b.el_present
        && a.nlq == b.nlq
        && a.blocks.len() == b.blocks.len()
        && a.blocks.iter().zip(b.blocks.iter()).all(|(x, y)| x.level == y.level && x.values == y.values)
        && a.active_area == b.active_area
}

#[test]
fn bits_read_msb_first() {
    let mut r = BitReader::new(vec![true, false, true, true, false]);
    assert_eq!(r.read_bits(3), Ok(5));
    assert_eq!(r.read_bits(2), Ok(2));
    assert_eq!(r.read_bits(1), Err(BitError::OutOfData));
}

#[test]
fn bits_write_rejects_wide_values() {
    let mut w = BitWriter::new();
    assert_eq!(w.write_bits(8, 3), Err(BitError::ValueTooWide));
    assert_eq!(w.len(), 0);
    assert_eq!(w.write_bits(7, 3), Ok(()));
    w.align_to_byte();
    assert_eq!(w.into_bits(), vec![true, true, true, false, false, false, false, false]);
}

#[test]
fn reader_align_skips_to_byte() {
    let mut r = BitReader::new(vec![true; 12]);
    assert_eq!(r.read_bits(3), Ok(7));
    r.align_to_byte();
    assert_eq!(r.available(), 4);
}

#[test]
fn round_trip_profile_7() {
    let rec = p7_record();
    let payload = encode_rpu(&rec).unwrap();
    let back = decode_rpu(&payload).unwrap();
    assert!(same_fields(&rec, &back));
    let again = encode_rpu(&back).unwrap();
    assert_eq!(payload, again);
}

#[test]
fn round_trip_profile_8_without_blocks() {
    let rec = RpuRecord {
        profile: Profile::P8,
        compat_id: 1,
        el_present: false,
        nlq: vec![],
        blocks: vec![],
        active_area: area(0, 0, 140, 140),
        checksum: 0,
    };
    let payload = encode_rpu(&rec).unwrap();
    // prefix 8 + profile 4 + compat 4 + count 8 + area 64 bits, then checksum
    assert_eq!(payload.len(), 11 + 4 + 1);
    assert_eq!(payload[15], 0x80);
    assert_eq!(payload[0], 25);
    assert_eq!(payload[1], 0x81);
    let back = decode_rpu(&payload).unwrap();
    assert!(same_fields(&rec, &back));
    let sum: u32 = payload[..11].iter().map(|b| *b as u32).sum();
    assert_eq!(back.checksum, sum);
}

#[test]
fn encode_rejects_wide_fields() {
    let mut rec = p7_record();
    rec.compat_id = 16;
    assert!(!is_well_formed(&rec));
    assert_eq!(encode_rpu(&rec).err(), Some(EncodeError::ValueTooWide));
    let mut rec = p7_record();
    rec.blocks[0].values[1] = 4096;
    assert_eq!(encode_rpu(&rec).err(), Some(EncodeError::ValueTooWide));
    let mut rec = p7_record();
    rec.blocks[0].values.pop();
    assert_eq!(encode_rpu(&rec).err(), Some(EncodeError::ValueTooWide));
}

#[test]
fn flipping_any_body_bit_is_a_checksum_mismatch() {
    let payload = encode_rpu(&p7_record()).unwrap();
    for j in 0..payload.len() - 5 {
        for k in 0..8 {
            let mut bad = payload.clone();
            bad[j] ^= 1 << k;
            assert_eq!(decode_rpu(&bad).err(), Some(DecodeError::ChecksumMismatch));
        }
    }
}

fn with_checksum(body: &[u8]) -> Vec<u8> {
    let sum: u32 = body.iter().map(|b| *b as u32).sum();
    let mut p = body.to_vec();
    p.extend_from_slice(&sum.to_be_bytes());
    p.push(0x80);
    p
}

#[test]
fn decode_errors() {
    assert_eq!(decode_rpu(&vec![1, 2, 3, 4]).err(), Some(DecodeError::OutOfData));
    assert_eq!(decode_rpu(&with_checksum(&[24, 0x81])).err(), Some(DecodeError::BadPrefix));
    assert_eq!(decode_rpu(&with_checksum(&[25, 0x61])).err(), Some(DecodeError::UnknownProfile));
    assert_eq!(decode_rpu(&with_checksum(&[25, 0x81])).err(), Some(DecodeError::OutOfData));
    // one block of level 3, which has no layout
    assert_eq!(
        decode_rpu(&with_checksum(&[25, 0x81, 1, 3, 0, 0, 0, 0, 0, 0, 0, 0])).err(),
        Some(DecodeError::UnknownElement)
    );
    // a whole byte after the area
    assert_eq!(
        decode_rpu(&with_checksum(&[25, 0x81, 0, 0, 0, 0, 0, 0, 0, 0, 0, 0])).err(),
        Some(DecodeError::TrailingData)
    );
    let good = with_checksum(&[25, 0x81, 0, 0, 0, 0, 0, 0, 0, 0, 0]);
    assert!(decode_rpu(&good).is_ok());
    let mut bad = good.clone();
    bad[14] ^= 1;
    assert_eq!(decode_rpu(&bad).err(), Some(DecodeError::ChecksumMismatch));
    let mut unterminated = good.clone();
    unterminated[15] = 0;
    assert_eq!(decode_rpu(&unterminated).err(), Some(DecodeError::BadTerminator));
}

#[test]
fn crop_twice_is_crop_once() {
    let once = crop(&p7_record());
    assert_eq!(once.active_area, area(0, 0, 0, 0));
    let twice = crop(&once);
    assert!(same_fields(&once, &twice));
}

#[test]
fn mel_conversion_is_idempotent() {
    let mel = convert_mel(&p7_record()).unwrap();
    assert_eq!(mel.nlq, vec![0, 0, 0]);
    assert!(mel.el_present);
    let again = convert_mel(&mel).unwrap();
    assert!(same_fields(&mel, &again));
}

#[test]
fn p81_conversion_drops_enhancement_layer() {
    let c = convert_p81(&p7_record()).unwrap();
    assert_eq!(c.profile, Profile::P8);
    assert_eq!(c.compat_id, 1);
    assert!(!c.el_present);
    assert!(c.nlq.is_empty());
    assert_eq!(c.active_area, area(2, 3, 0, 1));
    let back = decode_rpu(&encode_rpu(&c).unwrap()).unwrap();
    assert!(same_fields(&c, &back));
}

#[test]
fn profile_5_has_no_converted_form() {
    let mut rec = p7_record();
    rec.profile = Profile::P5;
    rec.el_present = false;
    rec.nlq = vec![];
    assert_eq!(convert_mel(&rec).err(), Some(ConvertError::UnsupportedProfile));
    assert_eq!(convert_p81(&rec).err(), Some(ConvertError::UnsupportedProfile));
}

#[test]
fn options_are_validated() {
    assert_eq!(validate_options(&RpuOptions { mode: Some(0), crop: true }), Err(ConvertError::CropWithoutConversion));
    assert_eq!(validate_options(&RpuOptions { mode: Some(3), crop: false }), Err(ConvertError::InvalidMode));
    assert_eq!(validate_options(&RpuOptions { mode: None, crop: true }), Ok(()));
    assert_eq!(validate_options(&RpuOptions { mode: Some(2), crop: true }), Ok(()));
    let c = convert(&p7_record(), &RpuOptions { mode: Some(2), crop: true }).unwrap();
    assert_eq!(c.profile, Profile::P8);
    assert_eq!(c.active_area, area(0, 0, 0, 0));
    let same = convert(&p7_record(), &RpuOptions { mode: Some(0), crop: false }).unwrap();
    assert!(same_fields(&same, &p7_record()));
}
