use ips_patch::error::Error;
use ips_patch::ips::Patch;
use ips_patch::ips::Record;

fn with_header(rest: &[u8]) -> Vec<u8> {
    let mut v = b"PATCH".to_vec();
    v.extend_from_slice(rest);
    v
}

#[test]
fn parse_empty_input_fails() {
    let r = Patch::parse(&Vec::new());
    assert_eq!(r.unwrap_err(), Error::MissingHeader);
}

#[test]
fn parse_short_header_fails() {
    let r = Patch::parse(&b"PATC".to_vec());
    assert_eq!(r.unwrap_err(), Error::MissingHeader);
}

#[test]
fn parse_wrong_magic_fails() {
    let r = Patch::parse(&b"PETCH\x45\x4f\x46".to_vec());
    assert_eq!(r.unwrap_err(), Error::MissingHeader);
}

#[test]
fn parse_garbage_after_header_fails() {
    let r = Patch::parse(&b"PATCHX".to_vec());
    assert_eq!(r.unwrap_err(), Error::TruncatedOffset { available: 1 });
}

#[test]
fn parse_missing_eof_fails() {
    let r = Patch::parse(&b"PATCH".to_vec());
    assert_eq!(r.unwrap_err(), Error::TruncatedOffset { available: 0 });
}

#[test]
fn parse_empty_record_run() {
    let p = Patch::parse(&b"PATCHEOF".to_vec()).unwrap();
    assert!(p.records.is_empty());
}

#[test]
fn parse_literal_record() {
    let bytes = with_header(&[0x00, 0x00, 0x01, 0x00, 0x03, 0x41, 0x42, 0x43, 0x45, 0x4f, 0x46]);
    let p = Patch::parse(&bytes).unwrap();
    assert_eq!(p.records.len(), 1);
    assert_eq!(
        p.records[0],
        Record::Literal { offset: 1, data: vec![0x41, 0x42, 0x43] }
    );
}

#[test]
fn parse_and_apply_run_length() {
    let bytes = with_header(&[0x00, 0x00, 0x00, 0x00, 0x00, 0x00, 0x02, 0xff, 0x45, 0x4f, 0x46]);
    let p = Patch::parse(&bytes).unwrap();
    assert_eq!(p.records.len(), 1);
    assert_eq!(
        p.records[0],
        Record::RunLength { offset: 0, length: 2, fill_value: 0xff }
    );
    let out = p.apply(&vec![0x00, 0x00, 0x00, 0x00]).unwrap();
    assert_eq!(out, vec![0xff, 0xff, 0x00, 0x00]);
}

#[test]
fn apply_literal_grows_buffer() {
    let p = Patch { records: vec![Record::Literal { offset: 4, data: vec![0x01, 0x02] }] };
    assert!(p.check_wf());
    let out = p.apply(&vec![0x09]).unwrap();
    assert_eq!(out.len(), 6);
    assert_eq!(out, vec![0x09, 0x00, 0x00, 0x00, 0x01, 0x02]);
}

#[test]
fn apply_run_length_grows_buffer() {
    let p = Patch { records: vec![Record::RunLength { offset: 3, length: 2, fill_value: 0x55 }] };
    let out = p.apply(&vec![0x01, 0x02]).unwrap();
    assert_eq!(out, vec![0x01, 0x02, 0x00, 0x55, 0x55]);
}

#[test]
fn apply_empty_patch_returns_input() {
    let p = Patch { records: Vec::new() };
    let input = vec![0x10, 0x20, 0x30];
    let out = p.apply(&input).unwrap();
    assert_eq!(out, input);
}

#[test]
fn apply_later_record_wins() {
    let p = Patch {
        records: vec![
            Record::RunLength { offset: 0, length: 4, fill_value: 0xaa },
            Record::Literal { offset: 2, data: vec![0x01, 0x02] },
        ],
    };
    let out = p.apply(&vec![0x00, 0x00, 0x00, 0x00]).unwrap();
    assert_eq!(out, vec![0xaa, 0xaa, 0x01, 0x02]);
}

#[test]
fn round_trip_reencodes_input() {
    let bytes = with_header(&[
        0x00, 0x00, 0x00, 0x00, 0x00, 0x00, 0x04, 0xaa, // run-length record
        0x00, 0x00, 0x02, 0x00, 0x02, 0x01, 0x02, // literal record
        0x45, 0x4f, 0x46, // EOF
    ]);
    let p = Patch::parse(&bytes).unwrap();
    assert_eq!(p.encode(), bytes);
}

#[test]
fn round_trip_empty_patch() {
    let bytes = b"PATCHEOF".to_vec();
    let p = Patch::parse(&bytes).unwrap();
    assert_eq!(p.encode(), bytes);
}

#[test]
fn truncated_offset_reports_available() {
    let r = Patch::parse(&with_header(&[0x00, 0x00]));
    assert_eq!(r.unwrap_err(), Error::TruncatedOffset { available: 2 });
}

#[test]
fn truncated_size_reports_available() {
    let r = Patch::parse(&with_header(&[0x00, 0x00, 0x01, 0x00]));
    assert_eq!(r.unwrap_err(), Error::TruncatedSize { available: 1 });
}

#[test]
fn truncated_rle_size_reports_available() {
    let r = Patch::parse(&with_header(&[0x00, 0x00, 0x00, 0x00, 0x00, 0x05]));
    assert_eq!(r.unwrap_err(), Error::TruncatedRleSize { available: 1 });
}

#[test]
fn truncated_rle_value_reported() {
    let r = Patch::parse(&with_header(&[0x00, 0x00, 0x00, 0x00, 0x00, 0x00, 0x02]));
    assert_eq!(r.unwrap_err(), Error::TruncatedRleValue);
}

#[test]
fn truncated_data_reports_shortfall() {
    let r = Patch::parse(&with_header(&[0x00, 0x00, 0x00, 0x00, 0x05, 0x41, 0x42]));
    assert_eq!(r.unwrap_err(), Error::TruncatedData { available: 2, required: 5 });
}

#[test]
fn zero_length_run_length_is_valid() {
    let bytes = with_header(&[0x00, 0x00, 0x00, 0x00, 0x00, 0x00, 0x00, 0x07, 0x45, 0x4f, 0x46]);
    let p = Patch::parse(&bytes).unwrap();
    assert_eq!(
        p.records[0],
        Record::RunLength { offset: 0, length: 0, fill_value: 0x07 }
    );
    let input = vec![0x01, 0x02];
    let out = p.apply(&input).unwrap();
    assert_eq!(out, input);
}

#[test]
fn eof_bytes_inside_data_are_payload() {
    let bytes = with_header(&[0x00, 0x00, 0x00, 0x00, 0x03, 0x45, 0x4f, 0x46, 0x45, 0x4f, 0x46]);
    let p = Patch::parse(&bytes).unwrap();
    assert_eq!(p.records.len(), 1);
    assert_eq!(
        p.records[0],
        Record::Literal { offset: 0, data: vec![0x45, 0x4f, 0x46] }
    );
}

#[test]
fn parse_largest_literal_record() {
    let mut rest = vec![0x12, 0x34, 0x56, 0xff, 0xff];
    rest.extend_from_slice(&vec![0xab; 0xffff]);
    rest.extend_from_slice(&[0x45, 0x4f, 0x46]);
    let bytes = with_header(&rest);
    let p = Patch::parse(&bytes).unwrap();
    assert_eq!(p.records.len(), 1);
    assert_eq!(
        p.records[0],
        Record::Literal { offset: 0x123456, data: vec![0xab; 0xffff] }
    );
    assert_eq!(p.encode(), bytes);
}

#[test]
fn encode_literal_exact_bytes() {
    let p = Patch { records: vec![Record::Literal { offset: 1, data: vec![0x41, 0x42, 0x43] }] };
    assert_eq!(
        p.encode(),
        with_header(&[0x00, 0x00, 0x01, 0x00, 0x03, 0x41, 0x42, 0x43, 0x45, 0x4f, 0x46])
    );
}

#[test]
fn encode_run_length_exact_bytes() {
    let p = Patch {
        records: vec![Record::RunLength { offset: 0x010203, length: 0x0405, fill_value: 0x66 }],
    };
    assert_eq!(
        p.encode(),
        with_header(&[0x01, 0x02, 0x03, 0x00, 0x00, 0x04, 0x05, 0x66, 0x45, 0x4f, 0x46])
    );
}

#[test]
fn check_wf_accepts_parsed_patch() {
    let bytes = with_header(&[0x00, 0x00, 0x01, 0x00, 0x03, 0x41, 0x42, 0x43, 0x45, 0x4f, 0x46]);
    let p = Patch::parse(&bytes).unwrap();
    assert!(p.check_wf());
}

#[test]
fn check_wf_rejects_out_of_range_record() {
    let p = Patch { records: vec![Record::Literal { offset: 0x1000000, data: vec![0x01] }] };
    assert!(!p.check_wf());
    let q = Patch { records: vec![Record::Literal { offset: 0, data: Vec::new() }] };
    assert!(!q.check_wf());
}
