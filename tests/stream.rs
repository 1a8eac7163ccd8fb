use dovi_tool::convert::{ConvertError, RpuOptions};
use dovi_tool::demux::{demux, demux_units, DemuxError};
use dovi_tool::edit::{edit_records, Edit, EditError, EditScope, FieldOverride};
use dovi_tool::input::{format_from, input_format, Format, InputError};
use dovi_tool::nal::{classify, split_units, unescape, write_stream, NalError, NalKind};
use dovi_tool::pipeline::{edit_units, extract_rpus, EditUnitsError};
use dovi_tool::rpu::{decode_rpu, encode_rpu, ActiveArea, MetadataBlock, Profile, RpuRecord};

fn rpu(l: u16, r: u16, t: u16, b: u16) -> RpuRecord {
    RpuRecord {
        profile: Profile::P7,
        compat_id: 6,
        el_present: true,
        nlq: vec![7, 0, 300],
        blocks: vec![MetadataBlock { level: 2, values: vec![1, 2, 3, 4, 5, 6] }],
        active_area: ActiveArea { left: l, right: r, top: t, bottom: b },
        checksum: 0,
    }
}

fn rpu_unit(rec: &RpuRecord) -> Vec<u8> {
    let mut u = vec![0x7c, 0x01];
    u.extend(encode_rpu(rec).unwrap());
    u
}

#[test]
fn classify_by_nal_type() {
    assert_eq!(classify(&vec![0x02, 0x01, 0xaa]), NalKind::Base);
    assert_eq!(classify(&vec![0x7c, 0x01]), NalKind::Rpu);
    assert_eq!(classify(&vec![0x7e, 0x01]), NalKind::Enhancement);
    assert_eq!(classify(&vec![]), NalKind::Base);
}

#[test]
fn split_three_and_four_byte_start_codes() {
    let s = vec![9, 0, 0, 1, 0x40, 0x01, 5, 0, 0, 0, 1, 0x42, 0x01, 0, 0, 1, 0x44];
    let units = split_units(&s).unwrap();
    assert_eq!(units, vec![vec![0x40, 0x01, 5], vec![0x42, 0x01], vec![0x44]]);
    assert_eq!(split_units(&vec![1, 2, 3, 0, 0]), Err(NalError::MalformedStream));
    assert_eq!(split_units(&vec![]), Err(NalError::MalformedStream));
}

#[test]
fn emulation_prevention_round_trip() {
    let payload = vec![0x02, 0x01, 0, 0, 1, 0, 0, 0, 0, 0, 3, 7];
    let wire = write_stream(&vec![payload.clone()]);
    assert_eq!(
        wire,
        vec![0, 0, 0, 1, 0x02, 0x01, 0, 0, 3, 1, 0, 0, 3, 0, 0, 3, 0, 3, 7]
    );
    let units = split_units(&wire).unwrap();
    assert_eq!(units.len(), 1);
    assert_eq!(unescape(&units[0]), payload);
}

#[test]
fn demux_example_scenario() {
    let base = vec![0x02, 0x01, 0xaf, 0x10];
    let meta = rpu_unit(&rpu(2, 3, 0, 1));
    let el = vec![0x7e, 0x01, 0x55, 0x66];
    let stream = write_stream(&vec![base.clone(), meta, el.clone()]);
    let (bl_out, el_out) = demux(&stream, &RpuOptions { mode: None, crop: true }).unwrap();
    let bl_units: Vec<Vec<u8>> = split_units(&bl_out).unwrap().iter().map(|u| unescape(u)).collect();
    assert_eq!(bl_units.len(), 2);
    assert_eq!(bl_units[0], base);
    let rewritten = decode_rpu(&bl_units[1][2..].to_vec()).unwrap();
    assert_eq!(rewritten.active_area, ActiveArea { left: 0, right: 0, top: 0, bottom: 0 });
    assert_eq!(rewritten.nlq, vec![7, 0, 300]);
    assert_eq!(&bl_units[1][..2], &[0x7c, 0x01]);
    assert_eq!(el_out, write_stream(&vec![el]));
}

#[test]
fn demux_keeps_every_unit_once() {
    let units = vec![
        vec![0x7e, 0x01, 1],
        vec![0x02, 0x01, 2],
        rpu_unit(&rpu(1, 1, 1, 1)),
        vec![0x7e, 0x01, 3],
        vec![0x26, 0x01, 4],
    ];
    let (bl, el) = demux_units(&units, &RpuOptions { mode: Some(1), crop: false }).unwrap();
    assert_eq!(bl.len() + el.len(), units.len());
    assert_eq!(el, vec![units[0].clone(), units[3].clone()]);
    assert_eq!(bl[0], units[1]);
    assert_eq!(bl[2], units[4]);
    let mel = decode_rpu(&bl[1][2..].to_vec()).unwrap();
    assert_eq!(mel.nlq, vec![0, 0, 0]);
}

#[test]
fn demux_reports_failing_unit() {
    let units = vec![vec![0x02, 0x01], vec![0x7c, 0x01, 25, 0x71]];
    assert!(matches!(
        demux_units(&units, &RpuOptions { mode: None, crop: false }),
        Err(DemuxError::Decode(1, _))
    ));
    let mut p5 = rpu(0, 0, 0, 0);
    p5.profile = Profile::P5;
    p5.el_present = false;
    p5.nlq = vec![];
    let units = vec![rpu_unit(&p5)];
    assert!(matches!(
        demux_units(&units, &RpuOptions { mode: Some(2), crop: false }),
        Err(DemuxError::Convert(0, ConvertError::UnsupportedProfile))
    ));
    assert!(matches!(
        demux(&vec![0, 0, 1, 2], &RpuOptions { mode: Some(0), crop: true }),
        Err(DemuxError::Config(ConvertError::CropWithoutConversion))
    ));
    assert!(matches!(
        demux(&vec![7, 7], &RpuOptions { mode: None, crop: false }),
        Err(DemuxError::MalformedStream)
    ));
}

#[test]
fn editing_one_frame_leaves_the_others() {
    let records: Vec<RpuRecord> = (0..20).map(|i| rpu(i, 0, 0, 0)).collect();
    let edits = vec![Edit {
        scope: EditScope::Frame(10),
        field: FieldOverride::ActiveArea(ActiveArea { left: 9, right: 9, top: 9, bottom: 9 }),
    }];
    let out = edit_records(&records, &edits).unwrap();
    assert_eq!(out.len(), 20);
    for (i, (a, b)) in records.iter().zip(out.iter()).enumerate() {
        if i == 10 {
            assert_eq!(b.active_area, ActiveArea { left: 9, right: 9, top: 9, bottom: 9 });
        } else {
            assert_eq!(encode_rpu(a).unwrap(), encode_rpu(b).unwrap());
        }
    }
}

#[test]
fn edit_ranges_and_global_in_order() {
    let records: Vec<RpuRecord> = (0..5).map(|_| rpu(0, 0, 0, 0)).collect();
    let edits = vec![
        Edit { scope: EditScope::Global, field: FieldOverride::CompatId(2) },
        Edit { scope: EditScope::Range(1, 3), field: FieldOverride::CompatId(4) },
    ];
    let out = edit_records(&records, &edits).unwrap();
    let ids: Vec<u8> = out.iter().map(|r| r.compat_id).collect();
    assert_eq!(ids, vec![2, 4, 4, 4, 2]);
}

#[test]
fn edit_errors_are_reported_before_editing() {
    let records: Vec<RpuRecord> = (0..3).map(|_| rpu(0, 0, 0, 0)).collect();
    let bad_scope = vec![
        Edit { scope: EditScope::Global, field: FieldOverride::CompatId(1) },
        Edit { scope: EditScope::Frame(3), field: FieldOverride::CompatId(1) },
    ];
    assert_eq!(edit_records(&records, &bad_scope).err(), Some(EditError::Scope(1)));
    let bad_range = vec![Edit { scope: EditScope::Range(2, 1), field: FieldOverride::CompatId(1) }];
    assert_eq!(edit_records(&records, &bad_range).err(), Some(EditError::Scope(0)));
    let bad_field = vec![Edit { scope: EditScope::Global, field: FieldOverride::CompatId(16) }];
    assert_eq!(edit_records(&records, &bad_field).err(), Some(EditError::Field(0)));
}

#[test]
fn input_formats() {
    assert_eq!(input_format("-", false), Ok(Format::RawStdin));
    assert_eq!(input_format("movie.mkv", true), Ok(Format::Matroska));
    assert_eq!(input_format("movie.hevc", true), Ok(Format::Raw));
    assert_eq!(input_format("movie.x265", true), Ok(Format::Raw));
    assert_eq!(input_format("movie.265", true), Ok(Format::Raw));
    assert_eq!(input_format("", false), Err(InputError::Missing));
    assert_eq!(input_format("movie.hevc", false), Err(InputError::NotFound));
    assert_eq!(input_format("movie.txt", true), Err(InputError::InvalidType));
    assert_eq!(input_format("mkv", true), Err(InputError::InvalidType));
    assert_eq!(format_from("clip.mkv", true, false), Err(InputError::InvalidType));
    assert_eq!(format_from("clip", true, true), Ok(Format::Raw));
    assert_eq!(InputError::Missing.message(), "Missing input.");
}

#[test]
fn extract_keeps_only_metadata_units() {
    let units = vec![
        vec![0x02, 0x01, 1],
        rpu_unit(&rpu(4, 4, 4, 4)),
        vec![0x7e, 0x01, 3],
        rpu_unit(&rpu(5, 5, 5, 5)),
    ];
    let out = extract_rpus(&units, &RpuOptions { mode: Some(2), crop: false }).unwrap();
    assert_eq!(out.len(), 2);
    let first = decode_rpu(&out[0][2..].to_vec()).unwrap();
    assert_eq!(first.profile, Profile::P8);
    assert_eq!(first.active_area, ActiveArea { left: 4, right: 4, top: 4, bottom: 4 });
    assert!(matches!(
        extract_rpus(&units, &RpuOptions { mode: Some(9), crop: false }),
        Err(DemuxError::Config(ConvertError::InvalidMode))
    ));
}

#[test]
fn edit_units_rewrites_in_place() {
    let units: Vec<Vec<u8>> = (0..4).map(|i| rpu_unit(&rpu(i, 0, 0, 0))).collect();
    let edits = vec![Edit { scope: EditScope::Range(2, 3), field: FieldOverride::CompatId(9) }];
    let out = edit_units(&units, &edits).unwrap();
    assert_eq!(out.len(), 4);
    assert_eq!(out[0], units[0]);
    assert_eq!(out[1], units[1]);
    let r2 = decode_rpu(&out[2][2..].to_vec()).unwrap();
    assert_eq!(r2.compat_id, 9);
    assert_eq!(r2.active_area.left, 2);
    let broken = vec![units[0].clone(), vec![0x7c]];
    assert_eq!(
        edit_units(&broken, &edits).err(),
        Some(EditUnitsError::Decode(1, dovi_tool::rpu::DecodeError::OutOfData))
    );
}
