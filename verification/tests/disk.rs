use std::sync::Arc;

use vmdk::descriptor::VmdkAccess;
use vmdk::disk::{
    check_transfer, read_extent, write_extent, Chunk, Direction, ExtentStorage, Target, VmdkExtent,
};
use vmdk::error::{
    AsyncIoError, BlockError, BlockErrorKind, ErrorKind, ErrorOp, ErrorSource, VmdkError,
};
use vmdk::open::{DiskOpening, OpenAction, OpenRequest, VmdkDiskSync, VMDK_SECTOR_SIZE};
use vmdk::raw::{decode_descriptor, descriptor_len};
use vmdk::size::PhysicalSize;
use vmdk::sync::VmdkSync;

/// A file in memory: its path, and its bytes.
struct MemoryFile {
    path: Vec<u8>,
    bytes: Vec<u8>,
}

/// Files in memory, and the numbers that the open ones have.
struct Files {
    files: Vec<MemoryFile>,
    open: Vec<usize>,
}

impl Files {
    fn new(files: &[(&str, usize)]) -> Files {
        let files = files
            .iter()
            .map(|(path, len)| MemoryFile {
                path: path.as_bytes().to_vec(),
                bytes: vec![0; *len],
            })
            .collect();
        Files {
            files,
            open: Vec::new(),
        }
    }

    fn open(&mut self, request: &OpenRequest) -> Result<usize, VmdkError> {
        match self.files.iter().position(|file| file.path == request.path) {
            Some(index) => {
                self.open.push(index);
                Ok(self.open.len() - 1)
            }
            None => Err(VmdkError::new(ErrorKind::Other, "no such file")),
        }
    }

    fn bytes(&mut self, file: usize) -> &mut Vec<u8> {
        &mut self.files[self.open[file]].bytes
    }

    fn read_at(&mut self, file: usize, dst: &mut [u8], offset: u64) -> usize {
        let bytes = self.bytes(file);
        let start = bytes.len().min(offset as usize);
        let count = dst.len().min(bytes.len() - start);
        dst[..count].copy_from_slice(&bytes[start..start + count]);
        count
    }

    fn write_at(&mut self, file: usize, src: &[u8], offset: u64) -> usize {
        let bytes = self.bytes(file);
        let end = offset as usize + src.len();
        if bytes.len() < end {
            bytes.resize(end, 0);
        }
        bytes[offset as usize..end].copy_from_slice(src);
        src.len()
    }
}

fn open_disk(
    contents: &str,
    parent: Option<&str>,
    files: &mut Files,
    readonly: bool,
) -> Result<VmdkDiskSync, BlockError> {
    let descriptor = descriptor_len(contents.len() as u64)
        .and_then(|len| decode_descriptor(&contents.as_bytes()[..len]));
    let parent = parent.map(|path| path.as_bytes().to_vec());
    let mut action = VmdkDiskSync::new(descriptor, parent, readonly, false)?;
    loop {
        action = match action {
            OpenAction::Open { opening, request } => opening.opened(files.open(&request))?,
            OpenAction::Done { disk } => return Ok(disk),
        };
    }
}

fn write(
    queue: &mut VmdkSync,
    files: &mut Files,
    offset: i64,
    buffers: &[&[u8]],
    user_data: u64,
) -> Result<(), AsyncIoError> {
    let lens: Vec<usize> = buffers.iter().map(|buffer| buffer.len()).collect();
    let plan = queue.write_vectored(offset, &lens);
    for (buffer, chunks) in buffers.iter().zip(&plan.transfers) {
        for chunk in chunks {
            match chunk.target {
                Target::File { file, offset } => {
                    let src = &buffer[chunk.start..chunk.start + chunk.len];
                    let count = files.write_at(file, src, offset);
                    check_transfer(Direction::Write, count, chunk.len)
                        .map_err(AsyncIoError::WriteVectored)?;
                }
                Target::Zero => panic!("write to zeroes"),
            }
        }
    }
    queue.finish(user_data, plan.outcome)
}

fn read(
    queue: &mut VmdkSync,
    files: &mut Files,
    offset: i64,
    buffers: &mut [&mut [u8]],
    user_data: u64,
) -> Result<(), AsyncIoError> {
    let lens: Vec<usize> = buffers.iter().map(|buffer| buffer.len()).collect();
    let plan = queue.read_vectored(offset, &lens);
    for (buffer, chunks) in buffers.iter_mut().zip(&plan.transfers) {
        for chunk in chunks {
            let dst = &mut buffer[chunk.start..chunk.start + chunk.len];
            match chunk.target {
                Target::File { file, offset } => {
                    let count = files.read_at(file, dst, offset);
                    check_transfer(Direction::Read, count, chunk.len)
                        .map_err(AsyncIoError::ReadVectored)?;
                }
                Target::Zero => dst.fill(0),
            }
        }
    }
    queue.finish(user_data, plan.outcome)
}

fn physical_size(disk: &VmdkDiskSync, files: &mut Files, descriptor: u64) -> u64 {
    let mut found = PhysicalSize::new((1, 1), descriptor);
    for file in disk.disk().data_files() {
        if found.is_new((1, 2 + files.open[file] as u64)) {
            let len = files.bytes(file).len();
            found.count(len as u64).unwrap();
        }
    }
    disk.physical_size(Ok(found.total())).unwrap()
}

fn described(extents: &str) -> String {
    format!("version=1\ncreateType=\"twoGbMaxExtentFlat\"\n{}", extents)
}

fn waiting(action: Result<OpenAction, BlockError>) -> (DiskOpening, OpenRequest) {
    match action.unwrap() {
        OpenAction::Open { opening, request } => (opening, request),
        OpenAction::Done { .. } => panic!("already open"),
    }
}

fn assert_failure(error: &VmdkError, kind: ErrorKind, message: &str) {
    assert_eq!(error.kind, kind);
    assert_eq!(error.message, message);
}

fn assert_open_fails(
    result: Result<VmdkDiskSync, BlockError>,
    kind: BlockErrorKind,
    source_kind: ErrorKind,
    message: &str,
) {
    let error = result.unwrap_err();
    assert_eq!(error.kind, kind);
    assert_eq!(error.op, Some(ErrorOp::Open));
    match &error.source {
        ErrorSource::Io(source) => assert_failure(source, source_kind, message),
        ErrorSource::Resize(_) => panic!("not a resize"),
    }
}

#[test]
fn read_write_across_two_flat_extents() {
    let contents = concat_lines(&[
        "# Disk DescriptorFile",
        "version=1",
        "CID=fffffffe",
        "parentCID=ffffffff",
        "createType=\"twoGbMaxExtentFlat\"",
        "RW 8 FLAT \"extent0-flat.vmdk\" 0",
        "RW 8 FLAT \"extent1-flat.vmdk\" 0",
    ]);
    let len = 8 * VMDK_SECTOR_SIZE as usize;
    let mut files = Files::new(&[
        ("/tmp/ch/extent0-flat.vmdk", len),
        ("/tmp/ch/extent1-flat.vmdk", len),
    ]);

    let disk = open_disk(&contents, Some("/tmp/ch"), &mut files, false).unwrap();
    assert_eq!(disk.logical_size(), 16 * VMDK_SECTOR_SIZE);
    let physical = physical_size(&disk, &mut files, contents.len() as u64);
    assert!(physical >= disk.logical_size());
    assert_eq!(physical, 16 * 512 + contents.len() as u64);

    let mut io = disk.create_async_io(128);
    let payload = vec![0x5a; 1024];
    let split = 256usize;
    let (left, right) = payload.split_at(split);
    let start = (8 * VMDK_SECTOR_SIZE) - 128;
    write(&mut io, &mut files, start as i64, &[left, right], 1).unwrap();
    assert_eq!(io.next_completed_request().unwrap(), (1, 1024));

    let mut read_buf = vec![0u8; 1024];
    let (read_left, read_right) = read_buf.split_at_mut(split);
    read(
        &mut io,
        &mut files,
        start as i64,
        &mut [read_left, read_right],
        2,
    )
    .unwrap();
    assert_eq!(io.next_completed_request().unwrap(), (2, 1024));
    assert_eq!(payload, read_buf);

    // The bytes lie on both sides of the border, and nowhere else.
    let first = files.bytes(0).clone();
    let second = files.bytes(1).clone();
    assert!(first[..len - 128].iter().all(|byte| *byte == 0));
    assert!(first[len - 128..].iter().all(|byte| *byte == 0x5a));
    assert!(second[..896].iter().all(|byte| *byte == 0x5a));
    assert!(second[896..].iter().all(|byte| *byte == 0));
    assert_eq!((first.len(), second.len()), (len, len));
}

fn concat_lines(lines: &[&str]) -> String {
    let mut text = String::new();
    for line in lines {
        text.push_str(line);
        text.push('\n');
    }
    text
}

#[test]
fn reads_may_split_what_was_written_otherwise() {
    let contents = described("RW 1 FLAT \"a\" 1\nRW 0 FLAT \"b\"\nRW 2 FLAT \"b\" 0\n");
    let mut files = Files::new(&[("a", 1024), ("b", 1024)]);
    let disk = open_disk(&contents, Some(""), &mut files, false).unwrap();
    assert_eq!(disk.logical_size(), 3 * 512);
    let mut io = disk.create_async_io(1);
    let data: Vec<u8> = (0..1000u32).map(|i| i as u8).collect();
    let parts: [&[u8]; 4] = [&data[..1], &[], &data[1..600], &data[600..]];
    write(&mut io, &mut files, 200, &parts, 7).unwrap();

    let mut result = vec![0xff; 900];
    {
        let (head, tail) = result.split_at_mut(450);
        read(&mut io, &mut files, 200, &mut [head, tail], 8).unwrap();
    }
    assert_eq!(result, data[..900]);
    assert_eq!(io.next_completed_request(), Some((7, 1000)));
    assert_eq!(io.next_completed_request(), Some((8, 900)));
    assert_eq!(io.next_completed_request(), None);

    // The first extent starts at the second sector of its file.
    assert_eq!(files.bytes(0)[512 + 200..], data[..312]);
    assert_eq!(files.bytes(2)[..688], data[312..]);
    assert!(files.bytes(0)[..712].iter().all(|byte| *byte == 0));
    assert!(files.bytes(2)[688..].iter().all(|byte| *byte == 0));
}

#[test]
fn extents_that_share_places_read_the_last_value() {
    let contents = described("RW 1 FLAT \"a\" 0\nRW 1 FLAT \"a\" 0\n");
    let mut files = Files::new(&[("a", 512)]);
    let disk = open_disk(&contents, Some(""), &mut files, false).unwrap();
    let mut io = disk.create_async_io(1);
    let data: Vec<u8> = [vec![1u8; 512], vec![2u8; 512]].concat();
    write(&mut io, &mut files, 0, &[&data], 1).unwrap();
    let mut result = vec![0; 1024];
    read(&mut io, &mut files, 0, &mut [&mut result], 2).unwrap();
    assert_eq!(result, vec![2; 1024]);
}

#[test]
fn a_read_plan_names_every_transfer() {
    let contents = described("RW 1 FLAT \"a\" 5\nRDONLY 2 ZERO\nRDONLY 1 FLAT \"b\"\n");
    let mut files = Files::new(&[("a", 0), ("b", 0)]);
    let disk = open_disk(&contents, Some(""), &mut files, false).unwrap();
    let plan = disk.disk().read_into_slice(500, 1100);
    assert_eq!(plan.outcome.unwrap(), 1100);
    assert_eq!(
        plan.chunks,
        [
            Chunk {
                start: 0,
                len: 12,
                target: Target::File {
                    file: 0,
                    offset: 5 * 512 + 500
                }
            },
            Chunk {
                start: 12,
                len: 1024,
                target: Target::Zero
            },
            Chunk {
                start: 1036,
                len: 64,
                target: Target::File { file: 1, offset: 0 }
            },
        ]
    );
    let empty = disk.disk().read_into_slice(500, 0);
    assert_eq!(empty.outcome.unwrap(), 0);
    assert!(empty.chunks.is_empty());
}

#[test]
fn what_can_be_written_is_read_by_the_same_transfers() {
    let contents = described("RW 1 FLAT \"a\" 5\nRW 2 FLAT \"b\"\n");
    let mut files = Files::new(&[("a", 0), ("b", 0)]);
    let disk = open_disk(&contents, Some(""), &mut files, false).unwrap();
    for (offset, len) in [(0, 1536), (511, 2), (512, 1024), (1535, 1), (1536, 9)] {
        let write = disk.disk().write_from_slice(offset, len);
        let read = disk.disk().read_into_slice(offset, len);
        assert_eq!(write.chunks, read.chunks);
        assert_eq!(write.outcome.unwrap(), read.outcome.unwrap());
    }
    let io = disk.create_async_io(1);
    let write = io.write_vectored(100, &[500, 0, 300]);
    let read = io.read_vectored(100, &[500, 0, 300]);
    assert_eq!(write.transfers, read.transfers);
    assert_eq!(write.outcome.unwrap(), 800);
    assert_eq!(read.outcome.unwrap(), 800);
}

#[test]
fn requests_at_the_end_of_the_disk() {
    let contents = described("RW 2 FLAT \"a\"\n");
    let mut files = Files::new(&[("a", 1024)]);
    let disk = open_disk(&contents, Some(""), &mut files, false).unwrap();

    let plan = disk.disk().read_into_slice(1024, 100);
    assert!(plan.chunks.is_empty());
    assert_eq!(plan.outcome.unwrap(), 0);
    let plan = disk.disk().write_from_slice(u64::MAX, 100);
    assert!(plan.chunks.is_empty());
    assert_eq!(plan.outcome.unwrap(), 0);

    let plan = disk.disk().read_into_slice(1000, 25);
    assert!(plan.chunks.is_empty());
    assert_failure(
        &plan.outcome.unwrap_err(),
        ErrorKind::UnexpectedEof,
        "read exceeds VMDK virtual size",
    );
    let plan = disk.disk().write_from_slice(1000, usize::MAX);
    assert!(plan.chunks.is_empty());
    assert_failure(
        &plan.outcome.unwrap_err(),
        ErrorKind::UnexpectedEof,
        "write exceeds VMDK virtual size",
    );

    // A buffer that starts behind the disk comes to nothing; one that reaches
    // over its end fails after the buffers in front of it.
    let io = disk.create_async_io(1);
    let plan = io.read_vectored(512, &[512, 7, 9]);
    assert_eq!(plan.outcome.unwrap(), 512);
    assert_eq!(plan.transfers.len(), 3);
    assert!(plan.transfers[1].is_empty() && plan.transfers[2].is_empty());
    let plan = io.write_vectored(512, &[500, 13, 1]);
    assert_eq!(plan.transfers.len(), 2);
    assert_eq!(plan.transfers[0].len(), 1);
    assert!(plan.transfers[1].is_empty());
    match plan.outcome {
        Err(AsyncIoError::WriteVectored(error)) => assert_failure(
            &error,
            ErrorKind::UnexpectedEof,
            "write exceeds VMDK virtual size",
        ),
        _ => panic!("should fail"),
    }
}

#[test]
fn negative_offsets_are_refused() {
    let contents = described("RW 2 FLAT \"a\"\n");
    let mut files = Files::new(&[("a", 1024)]);
    let disk = open_disk(&contents, Some(""), &mut files, false).unwrap();
    let mut io = disk.create_async_io(1);
    match write(&mut io, &mut files, -1, &[&[1]], 1) {
        Err(AsyncIoError::WriteVectored(error)) => {
            assert_failure(&error, ErrorKind::InvalidInput, "negative write offset")
        }
        _ => panic!("should fail"),
    }
    match read(&mut io, &mut files, i64::MIN, &mut [], 1) {
        Err(AsyncIoError::ReadVectored(error)) => {
            assert_failure(&error, ErrorKind::InvalidInput, "negative read offset")
        }
        _ => panic!("should fail"),
    }
    assert_eq!(io.next_completed_request(), None);
}

#[test]
fn protected_extents_stop_a_request_where_they_start() {
    let contents = described("RW 1 FLAT \"a\"\nRDONLY 1 FLAT \"b\"\nNOACCESS 1\nRW 1 ZERO\n");
    let mut files = Files::new(&[("a", 512), ("b", 512)]);
    let disk = open_disk(&contents, Some(""), &mut files, false).unwrap();
    let mut io = disk.create_async_io(1);

    let result = write(&mut io, &mut files, 500, &[&[9; 20]], 1);
    match result {
        Err(AsyncIoError::WriteVectored(error)) => assert_failure(
            &error,
            ErrorKind::PermissionDenied,
            "attempted to write a read-only VMDK extent",
        ),
        _ => panic!("should fail"),
    }
    assert_eq!(files.bytes(0)[500..], [9; 12]);
    assert_eq!(*files.bytes(1), vec![0; 512]);
    assert_eq!(io.next_completed_request(), None);

    let mut buffer = [7; 600];
    let result = read(&mut io, &mut files, 512, &mut [&mut buffer], 2);
    match result {
        Err(AsyncIoError::ReadVectored(error)) => assert_failure(
            &error,
            ErrorKind::PermissionDenied,
            "attempted to read a NOACCESS extent",
        ),
        _ => panic!("should fail"),
    }
    assert_eq!(buffer[..512], [0; 512]);
    assert_eq!(buffer[512..], [7; 88]);

    let plan = disk.disk().write_from_slice(3 * 512, 1);
    assert_failure(
        &plan.outcome.unwrap_err(),
        ErrorKind::Unsupported,
        "write to ZERO extent is not supported",
    );
    let plan = disk.disk().write_from_slice(2 * 512, 1);
    assert_failure(
        &plan.outcome.unwrap_err(),
        ErrorKind::PermissionDenied,
        "attempted to write a read-only VMDK extent",
    );
    let mut buffer = [7; 512];
    read(&mut io, &mut files, 3 * 512, &mut [&mut buffer], 3).unwrap();
    assert_eq!(buffer, [0; 512]);
}

#[test]
fn a_write_that_fails_keeps_the_buffers_in_front() {
    let contents = described("RW 1 FLAT \"a\"\nRW 1 FLAT \"b\"\nRDONLY 1 FLAT \"c\"\n");
    let mut files = Files::new(&[("a", 512), ("b", 512), ("c", 512)]);
    let disk = open_disk(&contents, Some(""), &mut files, false).unwrap();
    let mut io = disk.create_async_io(1);
    let buffers: [&[u8]; 3] = [&[1; 600], &[2; 430], &[3; 1]];
    assert!(write(&mut io, &mut files, 0, &buffers, 1).is_err());
    assert_eq!(*files.bytes(0), vec![1; 512]);
    assert_eq!(files.bytes(1)[..88], [1; 88]);
    assert_eq!(files.bytes(1)[88..], [2; 424]);
    assert_eq!(*files.bytes(2), vec![0; 512]);
    assert_eq!(io.next_completed_request(), None);
}

#[test]
fn places_of_single_extents() {
    let extent = |access, storage| VmdkExtent {
        access,
        disk_range: 0..512,
        storage,
    };
    let flat = Some(ExtentStorage::Flat {
        file: 3,
        offset: u64::MAX - 10,
    });
    let place = Target::File {
        file: 3,
        offset: u64::MAX,
    };
    let writable = extent(VmdkAccess::ReadWrite, flat);
    assert_eq!(read_extent(&writable, 10).unwrap(), place);
    assert_eq!(write_extent(&writable, 10).unwrap(), place);
    assert_failure(
        &read_extent(&writable, 11).unwrap_err(),
        ErrorKind::InvalidData,
        "extent overflow",
    );
    assert_failure(
        &write_extent(&writable, 11).unwrap_err(),
        ErrorKind::InvalidData,
        "extent overflow",
    );
    let missing = extent(VmdkAccess::ReadWrite, None);
    assert_failure(
        &read_extent(&missing, 0).unwrap_err(),
        ErrorKind::InvalidData,
        "extent data source missing",
    );
    assert_failure(
        &write_extent(&missing, 0).unwrap_err(),
        ErrorKind::InvalidData,
        "extent data source missing",
    );
    let zero = extent(VmdkAccess::ReadOnly, Some(ExtentStorage::Zero));
    assert_eq!(read_extent(&zero, 99).unwrap(), Target::Zero);
    assert!(write_extent(&zero, 99).is_err());
}

#[test]
fn short_transfers_fail() {
    assert!(check_transfer(Direction::Read, 5, 5).is_ok());
    assert!(check_transfer(Direction::Write, 0, 0).is_ok());
    assert_failure(
        &check_transfer(Direction::Read, 4, 5).unwrap_err(),
        ErrorKind::UnexpectedEof,
        "short read from VMDK extent",
    );
    assert_failure(
        &check_transfer(Direction::Write, 4, 5).unwrap_err(),
        ErrorKind::WriteZero,
        "short write to VMDK extent",
    );

    let contents = described("RW 2 FLAT \"a\"\n");
    let mut files = Files::new(&[("a", 600)]);
    let disk = open_disk(&contents, Some(""), &mut files, false).unwrap();
    let mut io = disk.create_async_io(1);
    let mut buffer = [0; 200];
    assert!(matches!(
        read(&mut io, &mut files, 500, &mut [&mut buffer], 1),
        Err(AsyncIoError::ReadVectored(_))
    ));
    assert_eq!(io.next_completed_request(), None);
}

#[test]
fn every_byte_is_found_in_its_extent() {
    let contents = described("RW 0 ZERO\nRW 1 ZERO\nRDONLY 0 ZERO\nRDONLY 0 ZERO\nNOACCESS 2\n");
    let mut files = Files::new(&[]);
    let disk = open_disk(&contents, Some(""), &mut files, false).unwrap();
    assert_eq!(disk.disk().virtual_size(), 1536);
    for offset in 0..1600u64 {
        let found = disk.disk().extent_for_offset(offset);
        if offset < 512 {
            assert_eq!(found.unwrap().access, VmdkAccess::ReadWrite);
            assert_eq!(found.unwrap().disk_range, 0..512);
        } else if offset < 1536 {
            assert_eq!(found.unwrap().access, VmdkAccess::NoAccess);
            assert_eq!(found.unwrap().disk_range, 512..1536);
        } else {
            assert!(found.is_none());
        }
    }
    assert!(disk.disk().data_files().is_empty());

    let mut files = Files::new(&[]);
    let disk = open_disk(&described("RW 0 ZERO\n"), None, &mut files, false).unwrap();
    assert_eq!(disk.logical_size(), 0);
    assert!(disk.disk().extent_for_offset(0).is_none());
}

#[test]
fn files_are_asked_for_one_at_a_time() {
    let contents = described("RW 1 FLAT \"a\"\nRDONLY 1 ZERO\nRDONLY 1 FLAT \"/abs/b\" 2\n");
    for (readonly, direct) in [(false, true), (true, false)] {
        let first = VmdkDiskSync::new(
            Ok(contents.clone()),
            Some(b"/img".to_vec()),
            readonly,
            direct,
        );
        let (opening, request) = waiting(first);
        assert_eq!(request.path, b"/img/a");
        assert_eq!(request.write, !readonly);
        assert_eq!(request.direct, direct);
        let (opening, request) = waiting(opening.opened(Ok(41)));
        assert_eq!(request.path, b"/abs/b");
        assert!(!request.write);
        assert_eq!(request.direct, direct);
        match opening.opened(Ok(42)).unwrap() {
            OpenAction::Done { disk } => {
                assert_eq!(disk.logical_size(), 1536);
                assert_eq!(disk.disk().data_files(), [41, 42]);
                assert_eq!(
                    disk.disk().extent_for_offset(1024).unwrap().storage,
                    Some(ExtentStorage::Flat {
                        file: 42,
                        offset: 1024
                    })
                );
            }
            OpenAction::Open { .. } => panic!("nothing is left to open"),
        }
    }
}

#[test]
fn relative_names_start_from_the_image() {
    let contents = described("RW 1 FLAT \"a\"\n");
    for (parent, path) in [
        (None, &b"./a"[..]),
        (Some(&b""[..]), &b"a"[..]),
        (Some(&b"/"[..]), &b"/a"[..]),
        (Some(&b"dir"[..]), &b"dir/a"[..]),
    ] {
        let parent = parent.map(|path| path.to_vec());
        let (_, request) = waiting(VmdkDiskSync::new(
            Ok(contents.clone()),
            parent,
            false,
            false,
        ));
        assert_eq!(request.path, path);
    }
}

#[test]
fn disks_that_cannot_be_opened() {
    let mut files = Files::new(&[("a", 512)]);
    let mut open = |contents: &str| open_disk(contents, Some(""), &mut files, false);
    assert_open_fails(
        open("abc"),
        BlockErrorKind::InvalidFormat,
        ErrorKind::InvalidData,
        "descriptor file size is outside supported range",
    );
    assert_open_fails(
        open("KDMV sparse"),
        BlockErrorKind::UnsupportedFeature,
        ErrorKind::Unsupported,
        "VMDK sparse extents are not supported",
    );
    assert_open_fails(
        open("createType=x"),
        BlockErrorKind::InvalidFormat,
        ErrorKind::InvalidData,
        "missing required VMDK header fields",
    );
    assert_open_fails(
        open(&described("RW 1 VMFS \"a\"\n")),
        BlockErrorKind::UnsupportedFeature,
        ErrorKind::Unsupported,
        "unsupported VMDK extent type: VMFS",
    );
    assert_open_fails(
        open(&described("RW 36028797018963968 ZERO\n")),
        BlockErrorKind::InvalidFormat,
        ErrorKind::InvalidData,
        "extent size overflow",
    );
    assert_open_fails(
        open(&described("RW 36028797018963967 ZERO\nRW 1 FLAT \"missing\"\n")),
        BlockErrorKind::InvalidFormat,
        ErrorKind::InvalidData,
        "disk size overflow",
    );
    assert_open_fails(
        open(&described("RW 1 FLAT \"a\" 36028797018963968\n")),
        BlockErrorKind::InvalidFormat,
        ErrorKind::InvalidData,
        "extent offset overflow",
    );
    // A file that is missing is noticed before its offset is.
    assert_open_fails(
        open(&described("RW 1 FLAT \"missing\" 36028797018963968\n")),
        BlockErrorKind::Io,
        ErrorKind::Other,
        "no such file",
    );
}

#[test]
fn a_disk_is_as_large_as_its_sectors() {
    let mut files = Files::new(&[]);
    let contents = described("RW 36028797018963966 ZERO\nNOACCESS 1\n");
    let disk = open_disk(&contents, None, &mut files, false).unwrap();
    assert_eq!(disk.logical_size(), 36_028_797_018_963_967 * 512);
    assert_eq!(disk.logical_size(), u64::MAX - 511);
    let plan = disk.disk().read_into_slice(36_028_797_018_963_965 * 512, 512);
    assert_eq!(plan.outcome.unwrap(), 512);
}

#[test]
fn shared_files_take_up_space_once() {
    let contents = described("RW 1 FLAT \"a\"\nRW 1 FLAT \"b\"\nRW 1 FLAT \"a\" 1\n");
    let mut files = Files::new(&[("a", 1024), ("b", 700)]);
    let disk = open_disk(&contents, Some(""), &mut files, false).unwrap();
    assert_eq!(disk.disk().data_files(), [0, 1, 2]);
    assert_eq!(physical_size(&disk, &mut files, 100), 1824);
}

#[test]
fn space_is_summed_over_distinct_files() {
    let mut found = PhysicalSize::new((1, 7), 10);
    assert_eq!(found.total(), 10);
    assert!(!found.is_new((1, 7)));
    assert!(found.is_new((7, 1)));
    found.count(5).unwrap();
    assert!(found.is_new((0, 7)));
    assert!(!found.is_new((7, 1)));
    assert_eq!(found.total(), 15);
    assert!(found.is_new((u64::MAX, u64::MAX)));
    found.count(u64::MAX - 15).unwrap();
    assert_eq!(found.total(), u64::MAX);
    assert!(found.is_new((u64::MAX, 0)));
    assert_failure(
        &found.count(1).unwrap_err(),
        ErrorKind::InvalidData,
        "size overflow",
    );
    assert_eq!(found.total(), u64::MAX);
}

#[test]
fn failed_measurements_are_reported_as_input_and_output() {
    let mut files = Files::new(&[]);
    let disk = open_disk(&described("RW 1 ZERO\n"), None, &mut files, false).unwrap();
    assert_eq!(disk.physical_size(Ok(77)).unwrap(), 77);
    let error = VmdkError::new(ErrorKind::InvalidData, "size overflow");
    let error = disk.physical_size(Err(error)).unwrap_err();
    assert_eq!(error.kind, BlockErrorKind::Io);
    assert_eq!(error.op, None);
    match &error.source {
        ErrorSource::Io(source) => {
            assert_failure(source, ErrorKind::InvalidData, "size overflow")
        }
        ErrorSource::Resize(_) => panic!("not a resize"),
    }
}

#[test]
fn resizing_is_refused() {
    let mut files = Files::new(&[]);
    let mut disk = open_disk(&described("RW 1 ZERO\n"), None, &mut files, false).unwrap();
    let error = disk.resize(4096).unwrap_err();
    assert_eq!(error.kind, BlockErrorKind::UnsupportedFeature);
    assert_eq!(error.op, Some(ErrorOp::Resize));
    match &error.source {
        ErrorSource::Resize(source) => {
            assert_failure(source, ErrorKind::Other, "resize not supported for VMDK")
        }
        ErrorSource::Io(_) => panic!("a resize"),
    }
    assert_eq!(disk.logical_size(), 512);
}

#[test]
fn clones_share_the_disk() {
    let contents = described("RW 1 FLAT \"a\"\n");
    let mut files = Files::new(&[("a", 512)]);
    let disk = open_disk(&contents, Some(""), &mut files, false).unwrap();
    let other = disk.try_clone();
    assert_eq!(other.logical_size(), 512);
    let mut first = disk.create_async_io(1);
    let mut second = other.create_async_io(1);
    write(&mut first, &mut files, 10, &[b"shared"], 1).unwrap();
    let mut buffer = [0; 6];
    read(&mut second, &mut files, 10, &mut [&mut buffer], 2).unwrap();
    assert_eq!(&buffer, b"shared");
    assert_eq!(first.next_completed_request(), Some((1, 6)));
    assert_eq!(second.next_completed_request(), Some((2, 6)));
}

#[test]
fn completions_come_in_order() {
    let mut files = Files::new(&[]);
    let disk = open_disk(&described("RW 1 ZERO\n"), None, &mut files, false).unwrap();
    let mut io = disk.create_async_io(1);
    assert_eq!(io.next_completed_request(), None);
    io.finish(5, Ok(3)).unwrap();
    assert!(io.fsync(Ok(()), Some(6)).unwrap());
    assert!(!io.fsync(Ok(()), None).unwrap());
    assert_eq!(io.next_completed_request(), Some((5, 3)));
    // Counts are kept modulo 2^32.
    io.finish(7, Ok(0x1_8000_0001)).unwrap();
    assert_eq!(io.next_completed_request(), Some((6, 0)));
    assert_eq!(io.next_completed_request(), Some((7, -0x7fff_ffff)));
    assert_eq!(io.next_completed_request(), None);
}

#[test]
fn failed_requests_are_not_recorded() {
    let mut files = Files::new(&[]);
    let disk = open_disk(&described("RW 1 ZERO\n"), None, &mut files, false).unwrap();
    let mut io = disk.create_async_io(1);
    match io.fsync(Err(VmdkError::new(ErrorKind::Other, "lost")), Some(1)) {
        Err(AsyncIoError::Fsync(error)) => assert_failure(&error, ErrorKind::Other, "lost"),
        _ => panic!("should fail"),
    }
    let outcome = Err(AsyncIoError::ReadVectored(VmdkError::new(
        ErrorKind::Other,
        "bad",
    )));
    match io.finish(2, outcome) {
        Err(AsyncIoError::ReadVectored(error)) => assert_failure(&error, ErrorKind::Other, "bad"),
        _ => panic!("should fail"),
    }
    match io.punch_hole(0, 1, 3) {
        Err(AsyncIoError::PunchHole(error)) => assert_failure(
            &error,
            ErrorKind::Other,
            "punch_hole not supported for VMDK",
        ),
        _ => panic!("should fail"),
    }
    match io.write_zeroes(0, 1, 4) {
        Err(AsyncIoError::WriteZeroes(error)) => assert_failure(
            &error,
            ErrorKind::Other,
            "write_zeroes not supported for VMDK",
        ),
        _ => panic!("should fail"),
    }
    assert_eq!(io.next_completed_request(), None);
}

#[test]
fn a_queue_serves_the_disk_it_was_made_for() {
    fn shared<T: Send + Sync>(_: &T) {}
    let mut files = Files::new(&[]);
    let disk = open_disk(&described("RW 3 ZERO\n"), None, &mut files, false).unwrap();
    shared(&Arc::new(disk.try_clone()));
    let io = disk.create_async_io(1);
    drop(disk);
    let plan = io.read_vectored(0, &[1536]);
    assert_eq!(plan.outcome.unwrap(), 1536);
}
