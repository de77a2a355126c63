use vmdk::descriptor::{
    has_supported_descriptor_header, parse_descriptor, parse_extent_line, parse_u32, strip_quotes,
    ParsedExtent, ParsedStorage, VmdkAccess,
};
use vmdk::error::{
    classify_open_error, invalid_data, BlockErrorKind, ErrorKind, ErrorOp, ErrorSource, VmdkError,
};
use vmdk::raw::{
    decode_descriptor, descriptor_len, invalid_utf8, probe_vmdk, VMDK_MAX_DESCRIPTOR_LEN,
    VMDK_SPARSE_MAGIC,
};

const HEADER: &str = "version=1\ncreateType=\"monolithicFlat\"\n";

/// What comes of reading a file with these contents as a descriptor.
fn read_descriptor(contents: &[u8]) -> Result<String, VmdkError> {
    let len = descriptor_len(contents.len() as u64)?;
    decode_descriptor(&contents[..len])
}

fn assert_fails<T>(result: Result<T, VmdkError>, kind: ErrorKind, message: &str) {
    match result {
        Ok(_) => panic!("expected: {}", message),
        Err(error) => {
            assert_eq!(error.kind, kind);
            assert_eq!(error.message, message);
        }
    }
}

fn assert_flat(extent: &ParsedExtent, access: VmdkAccess, sectors: u64, name: &str, sector: u64) {
    assert_eq!(extent.access, access);
    assert_eq!(extent.sectors, sectors);
    match &extent.storage {
        Some(ParsedStorage::Flat { filename, offset }) => {
            assert_eq!(filename, name);
            assert_eq!(*offset, sector);
        }
        _ => panic!("not a flat extent"),
    }
}

#[test]
fn detect_vmdk_descriptor() {
    let contents = concat_lines(&[
        "version=1",
        "CID=fffffffe",
        "parentCID=ffffffff",
        "createType=\"monolithicFlat\"",
        "RW 8 FLAT \"data-flat.vmdk\" 0",
    ]);
    assert!(probe_vmdk(read_descriptor(contents.as_bytes())).unwrap());
}

#[test]
fn reject_sparse_vmdk_header() {
    let mut contents = VMDK_SPARSE_MAGIC.to_le_bytes().to_vec();
    contents.resize(4096, 0);
    assert!(!probe_vmdk(read_descriptor(&contents)).unwrap());
}

fn concat_lines(lines: &[&str]) -> String {
    let mut text = String::new();
    for line in lines {
        text.push_str(line);
        text.push('\n');
    }
    text
}

#[test]
fn descriptor_length_is_bounded() {
    let message = "descriptor file size is outside supported range";
    assert_fails(descriptor_len(0), ErrorKind::InvalidData, message);
    assert_fails(descriptor_len(3), ErrorKind::InvalidData, message);
    assert_eq!(descriptor_len(4).unwrap(), 4);
    assert_eq!(VMDK_MAX_DESCRIPTOR_LEN, 2_097_152);
    assert_eq!(descriptor_len(2_097_152).unwrap(), 2_097_152);
    assert_fails(descriptor_len(2_097_153), ErrorKind::InvalidData, message);
    assert_fails(descriptor_len(u64::MAX), ErrorKind::InvalidData, message);
}

#[test]
fn sparse_magic_is_recognised_by_its_four_bytes() {
    assert_fails(
        decode_descriptor(b"KDMV"),
        ErrorKind::Unsupported,
        "VMDK sparse extents are not supported",
    );
    assert_fails(
        decode_descriptor(b"KDMV\xff\xfe"),
        ErrorKind::Unsupported,
        "VMDK sparse extents are not supported",
    );
    assert_eq!(decode_descriptor(b"VMDK").unwrap(), "VMDK");
    assert_eq!(decode_descriptor(b"KDMW").unwrap(), "KDMW");
}

#[test]
fn text_is_decoded_from_utf8() {
    let text = "größe \u{3000}\u{10ffff}=1\n";
    assert_eq!(decode_descriptor(text.as_bytes()).unwrap(), text);
    assert_fails(
        decode_descriptor(b"abcd\xff"),
        ErrorKind::InvalidData,
        "invalid UTF-8: invalid utf-8 sequence of 1 bytes from index 4",
    );
    assert_fails(
        decode_descriptor(b"abc\xe2\x82"),
        ErrorKind::InvalidData,
        "invalid UTF-8: incomplete utf-8 byte sequence from index 3",
    );
    let error = invalid_utf8("odd");
    assert_eq!(error.kind, ErrorKind::InvalidData);
    assert_eq!(error.message, "invalid UTF-8: odd");
}

#[test]
fn probe_tells_other_files_from_failures() {
    for kind in [
        ErrorKind::InvalidData,
        ErrorKind::UnexpectedEof,
        ErrorKind::Unsupported,
    ] {
        assert!(!probe_vmdk(Err(VmdkError::new(kind, "no"))).unwrap());
    }
    for kind in [
        ErrorKind::InvalidInput,
        ErrorKind::PermissionDenied,
        ErrorKind::WriteZero,
        ErrorKind::Other,
    ] {
        assert_fails(probe_vmdk(Err(VmdkError::new(kind, "why"))), kind, "why");
    }
    assert!(!probe_vmdk(Ok(String::new())).unwrap());
    assert!(probe_vmdk(Ok(HEADER.to_string())).unwrap());
    assert_fails(
        probe_vmdk(Ok("version=x\n".to_string())),
        ErrorKind::InvalidData,
        "invalid numeric value",
    );
}

#[test]
fn header_needs_version_and_type_in_any_order() {
    let supported = |text: &str| has_supported_descriptor_header(text).unwrap();
    assert!(supported(HEADER));
    assert!(supported("createType=twoGbMaxExtentFlat\nversion=\"3\""));
    assert!(supported(" \tversion = \"2\" \r\n\r\n createType = \"monolithicFlat\"\r\n"));
    assert!(!supported(""));
    assert!(!supported("version=1\n"));
    assert!(!supported("createType=\"monolithicFlat\"\n"));
    assert!(!supported("#version=1\ncreateType=\"monolithicFlat\"\n"));
    assert!(!supported("version=0\ncreateType=\"monolithicFlat\"\n"));
    assert!(!supported("version=4\ncreateType=\"monolithicFlat\"\n"));
    assert!(!supported("version=1\ncreateType=\"monolithicSparse\"\n"));
    assert!(!supported("version=1\ncreateType=\"monolithicFlat\n"));
    assert!(!supported("Version=1\ncreateType=\"monolithicFlat\"\n"));
}

#[test]
fn header_is_not_read_past_the_line_that_decides() {
    let supported = |text: &str| has_supported_descriptor_header(text).unwrap();
    assert!(supported("version=1\ncreateType=monolithicFlat\nversion=9\nversion=x\n"));
    assert!(!supported("version=9\nversion=x\n"));
    assert!(!supported("createType=vmfs\nversion=x\n"));
    assert_fails(
        has_supported_descriptor_header("version=1\nversion=x\ncreateType=monolithicFlat\n"),
        ErrorKind::InvalidData,
        "invalid numeric value",
    );
}

#[test]
fn quotes_come_off_in_pairs() {
    assert_eq!(strip_quotes("\"a b\""), "a b");
    assert_eq!(strip_quotes("\"\""), "");
    assert_eq!(strip_quotes("\"\"a\"\""), "\"a\"");
    assert_eq!(strip_quotes("\""), "\"");
    assert_eq!(strip_quotes("\"a"), "\"a");
    assert_eq!(strip_quotes("a\""), "a\"");
    assert_eq!(strip_quotes(""), "");
    assert_eq!(strip_quotes("\"ß\u{3000}\""), "ß\u{3000}");
}

#[test]
fn numbers_of_the_header() {
    assert_eq!(parse_u32("0").unwrap(), 0);
    assert_eq!(parse_u32("\"12\"").unwrap(), 12);
    assert_eq!(parse_u32("+7").unwrap(), 7);
    assert_eq!(parse_u32("0004294967295").unwrap(), u32::MAX);
    for value in ["", "+", "-0", "-1", "4294967296", "1 ", "0x1", "1.0", "\"\"", "١"] {
        assert!(value.trim_matches('"').parse::<u32>().is_err());
        assert_fails(parse_u32(value), ErrorKind::InvalidData, "invalid numeric value");
    }
}

#[test]
fn extent_lines() {
    let line = |text: &str| parse_extent_line(text).unwrap();
    assert_flat(
        &line("RW 8 FLAT \"a.vmdk\" 3"),
        VmdkAccess::ReadWrite,
        8,
        "a.vmdk",
        3,
    );
    assert_flat(
        &line("  RDONLY\t+18446744073709551615 FLAT \" two words \"\u{a0}9 rest"),
        VmdkAccess::ReadOnly,
        u64::MAX,
        "two words",
        9,
    );
    assert_flat(&line("RW 0 FLAT \"\""), VmdkAccess::ReadWrite, 0, "", 0);
    assert_flat(&line("RW 1 FLAT \"a\"5"), VmdkAccess::ReadWrite, 1, "a", 5);

    let zero = line("RDONLY 4 ZERO anything \"at all");
    assert_eq!(zero.access, VmdkAccess::ReadOnly);
    assert_eq!(zero.sectors, 4);
    assert!(matches!(zero.storage, Some(ParsedStorage::Zero)));

    let none = line("NOACCESS 6 SPARSE");
    assert_eq!(none.access, VmdkAccess::NoAccess);
    assert_eq!(none.sectors, 6);
    assert!(none.storage.is_none());
}

#[test]
fn bad_extent_lines() {
    for (text, message) in [
        ("", "access type missing"),
        (" \t", "access type missing"),
        ("rw 8 FLAT \"a\"", "invalid access type"),
        ("RW", "sector count missing"),
        ("NOACCESS", "sector count missing"),
        ("RW x FLAT \"a\"", "invalid sector count"),
        ("RW 18446744073709551616 ZERO", "invalid sector count"),
        ("RW -1 ZERO", "invalid sector count"),
        ("RW 8", "extent type missing"),
        ("RW 8 FLAT a 0", "extent filename missing"),
        ("RW 8 FLAT \"a 0", "extent filename not terminated"),
        ("RW 8 FLAT x \"a\" 0", "extent filename appears at unexpected position"),
        ("RW 8 FLAT \"a\" b", "invalid extent offset"),
        ("RW 8 FLAT \"a\" 18446744073709551616", "invalid extent offset"),
        ("RW 8 FLAT \"a\"\"b\" 0", "invalid extent offset"),
    ] {
        assert_fails(parse_extent_line(text), ErrorKind::InvalidData, message);
    }
    assert_fails(
        parse_extent_line("RW 8 SPARSE \"a\""),
        ErrorKind::Unsupported,
        "unsupported VMDK extent type: SPARSE",
    );
    assert_fails(
        parse_extent_line("RW 8 FLAT\"a\" 0"),
        ErrorKind::Unsupported,
        "unsupported VMDK extent type: FLAT\"a\"",
    );
}

#[test]
fn extents_come_in_the_order_of_their_lines() {
    let text = concat_lines(&[
        "# Disk DescriptorFile",
        "RW 1 FLAT \"in front.vmdk\" 2",
        "version=1",
        "",
        "createType=\"twoGbMaxExtentFlat\"",
        "  # RW 9 ZERO",
        "RWX 9 ZERO",
        "RW",
        "\tRDONLY 3 ZERO\r",
        "NOACCESS\u{2003}4",
        "ddb.adapterType = \"ide\"",
    ]);
    let extents = parse_descriptor(&text).unwrap();
    assert_eq!(extents.len(), 3);
    assert_flat(&extents[0], VmdkAccess::ReadWrite, 1, "in front.vmdk", 2);
    assert_eq!(extents[1].access, VmdkAccess::ReadOnly);
    assert_eq!(extents[1].sectors, 3);
    assert_eq!(extents[2].access, VmdkAccess::NoAccess);
    assert_eq!(extents[2].sectors, 4);
}

#[test]
fn rejected_descriptors() {
    assert_fails(
        parse_descriptor("RW 8 ZERO\n"),
        ErrorKind::InvalidData,
        "missing required VMDK header fields",
    );
    assert_fails(
        parse_descriptor("version=\n"),
        ErrorKind::InvalidData,
        "invalid numeric value",
    );
    assert_fails(
        parse_descriptor(HEADER),
        ErrorKind::InvalidData,
        "VMDK descriptor does not contain extents",
    );
    // The first bad line decides.
    let text = format!("{}RW 8 ZERO\nRW 8 VMFS\nRW x ZERO\n", HEADER);
    assert_fails(
        parse_descriptor(&text),
        ErrorKind::Unsupported,
        "unsupported VMDK extent type: VMFS",
    );
}

#[test]
fn open_failures_are_told_apart() {
    let error = invalid_data("broken");
    assert_eq!(error.kind, ErrorKind::InvalidData);
    assert_eq!(error.message, "broken");
    for (kind, expected) in [
        (ErrorKind::InvalidData, BlockErrorKind::InvalidFormat),
        (ErrorKind::Unsupported, BlockErrorKind::UnsupportedFeature),
        (ErrorKind::InvalidInput, BlockErrorKind::Io),
        (ErrorKind::PermissionDenied, BlockErrorKind::Io),
        (ErrorKind::UnexpectedEof, BlockErrorKind::Io),
        (ErrorKind::WriteZero, BlockErrorKind::Io),
        (ErrorKind::Other, BlockErrorKind::Io),
    ] {
        let error = classify_open_error(VmdkError::new(kind, "why"));
        assert_eq!(error.kind, expected);
        assert_eq!(error.op, None);
        match &error.source {
            ErrorSource::Io(source) => {
                assert_eq!(source.kind, kind);
                assert_eq!(source.message, "why");
            }
            ErrorSource::Resize(_) => panic!("not a resize"),
        }
        assert_eq!(error.with_op(ErrorOp::Open).op, Some(ErrorOp::Open));
    }
}
