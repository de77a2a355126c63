//! The descriptor file: from bytes to text.

use crate::descriptor::has_supported_descriptor_header;
use crate::error::{invalid_data, ErrorKind, VmdkError};
use crate::{descriptor, error};
use vstd::prelude::*;
use vstd::string::*;
use vstd::utf8::*;

verus! {

/// What a sparse extent starts with, as a little-endian number.
pub const VMDK_SPARSE_MAGIC: u32 = 0x564d_444b;

/// The fewest bytes that a descriptor file may have.
pub const VMDK_MIN_DESCRIPTOR_LEN: u64 = 4;

/// The most bytes that a descriptor file may have.
pub const VMDK_MAX_DESCRIPTOR_LEN: u64 = 2 * 1024 * 1024;

/// The little-endian number in the first four bytes.
pub open spec fn leading_number(data: Seq<u8>) -> int {
    data[0] + data[1] * 0x100 + data[2] * 0x1_0000 + data[3] * 0x100_0000
}

/// How the standard library words what makes `bytes` no UTF-8.
pub uninterp spec fn utf8_fault(bytes: Seq<u8>) -> Seq<char>;

/// Calls `std::str::from_utf8`, which accepts the bytes if and only if they are
/// UTF-8 and then gives the characters that they encode. Of the error only its
/// wording is kept; the same bytes are always faulted in the same words.
#[verifier::external_body]
fn text_of(bytes: &[u8]) -> (text: Result<&str, String>)
    ensures
        text is Ok <==> valid_utf8(bytes@),
        text matches Ok(characters) ==> characters@ == decode_utf8(bytes@),
        text matches Err(fault) ==> fault@ == utf8_fault(bytes@),
{
    match std::str::from_utf8(bytes) {
        Ok(characters) => Ok(characters),
        Err(fault) => Err(fault.to_string()),
    }
}

/// Accepts the length of a descriptor file.
pub fn descriptor_len(size: u64) -> (len: Result<usize, VmdkError>)
    ensures
        len is Ok <==> 4 <= size <= 2_097_152,
        match len {
            Ok(len) => len == size && VMDK_MIN_DESCRIPTOR_LEN <= size <= VMDK_MAX_DESCRIPTOR_LEN,
            Err(error) => {
                &&& !(VMDK_MIN_DESCRIPTOR_LEN <= size <= VMDK_MAX_DESCRIPTOR_LEN)
                &&& error@ == error::invalid_data_failure(
                    "descriptor file size is outside supported range"@,
                )
            },
        },
{
    if size < VMDK_MIN_DESCRIPTOR_LEN || size > VMDK_MAX_DESCRIPTOR_LEN {
        return Err(invalid_data("descriptor file size is outside supported range"));
    }
    Ok(size as usize)
}

/// The failure of bytes that are no UTF-8, in the words of `fault`.
pub fn invalid_utf8(fault: &str) -> (error: VmdkError)
    ensures
        error@ == error::invalid_data_failure("invalid UTF-8: "@ + fault@),
{
    let mut message = "invalid UTF-8: ".to_owned();
    message.append(fault);
    VmdkError { kind: ErrorKind::InvalidData, message }
}

/// The text in a descriptor file, or why the file holds none.
pub open spec fn decoded(data: Seq<u8>) -> Result<Seq<char>, error::Failure> {
    if leading_number(data) == VMDK_SPARSE_MAGIC {
        Err(
            error::Failure {
                kind: ErrorKind::Unsupported,
                message: "VMDK sparse extents are not supported"@,
            },
        )
    } else if valid_utf8(data) {
        Ok(decode_utf8(data))
    } else {
        Err(error::invalid_data_failure("invalid UTF-8: "@ + utf8_fault(data)))
    }
}

/// A result with its text and its error replaced by their views.
pub open spec fn seen_text(result: Result<String, VmdkError>) -> Result<
    Seq<char>,
    error::Failure,
> {
    match result {
        Ok(text) => Ok(text@),
        Err(error) => Err(error@),
    }
}

/// A file that starts with the bytes of the sparse magic is refused as unsupported, and
/// no other file is.
pub proof fn law_sparse_magic(data: Seq<u8>)
    requires
        data.len() >= 4,
    ensures
        data.take(4) == seq![0x4bu8, 0x44, 0x4d, 0x56] <==> (decoded(data) matches Err(failure)
            && failure.kind == ErrorKind::Unsupported),
        data.take(4) == seq![0x4bu8, 0x44, 0x4d, 0x56] ==> decoded(data) == Err::<
            Seq<char>,
            error::Failure,
        >(
            error::Failure {
                kind: ErrorKind::Unsupported,
                message: "VMDK sparse extents are not supported"@,
            },
        ),
{
    let magic = seq![0x4bu8, 0x44, 0x4d, 0x56];
    let head = data.take(4);
    assert(head[0] == data[0] && head[1] == data[1] && head[2] == data[2] && head[3] == data[3]);
    if head == magic {
        assert(magic[0] == 0x4b && magic[1] == 0x44 && magic[2] == 0x4d && magic[3] == 0x56);
        assert(leading_number(data) == 0x564d_444b);
    }
    if leading_number(data) == 0x564d_444b {
        assert(data[3] == 0x56);
        assert(data[2] == 0x4d);
        assert(data[1] == 0x44);
        assert(data[0] == 0x4b);
        assert(head =~= magic);
    }
}

/// A text that was encoded is decoded to itself, whatever is in it.
pub proof fn law_decoded_text(text: Seq<char>)
    requires
        encode_utf8(text).len() >= 4,
        encode_utf8(text).take(4) != seq![0x4bu8, 0x44, 0x4d, 0x56],
    ensures
        decoded(encode_utf8(text)) == Ok::<Seq<char>, error::Failure>(text),
{
    law_sparse_magic(encode_utf8(text));
    encode_utf8_valid_utf8(text);
    encode_utf8_decode_utf8(text);
}

/// Bytes that are decoded are UTF-8, and the text encodes to them. Other bytes are
/// refused as invalid, unless they are refused as sparse.
pub proof fn law_decoded_bytes(data: Seq<u8>)
    requires
        data.len() >= 4,
        data.take(4) != seq![0x4bu8, 0x44, 0x4d, 0x56],
    ensures
        match decoded(data) {
            Ok(text) => valid_utf8(data) && encode_utf8(text) == data,
            Err(failure) => !valid_utf8(data) && failure.kind == ErrorKind::InvalidData,
        },
{
    law_sparse_magic(data);
    if valid_utf8(data) {
        decode_utf8_encode_utf8(data);
    }
}

/// Decodes the contents of a descriptor file.
pub fn decode_descriptor(data: &[u8]) -> (text: Result<String, VmdkError>)
    requires
        data@.len() >= VMDK_MIN_DESCRIPTOR_LEN,
    ensures
        seen_text(text) == decoded(data@),
{
    let number: u32 = data[0] as u32 + data[1] as u32 * 0x100 + data[2] as u32 * 0x1_0000
        + data[3] as u32 * 0x100_0000;
    if number == VMDK_SPARSE_MAGIC {
        return Err(
            VmdkError::new(ErrorKind::Unsupported, "VMDK sparse extents are not supported"),
        );
    }
    match text_of(data) {
        Ok(text) => Ok(text.to_owned()),
        Err(fault) => Err(invalid_utf8(fault.as_str())),
    }
}

/// Whether a file that cannot be read as a descriptor is, for that reason, some
/// other kind of file.
pub open spec fn is_other_format(kind: ErrorKind) -> bool {
    kind == ErrorKind::InvalidData || kind == ErrorKind::UnexpectedEof || kind
        == ErrorKind::Unsupported
}

/// Whether a file is a supported VMDK descriptor, given what came of reading it.
pub fn probe_vmdk(descriptor: Result<String, VmdkError>) -> (found: Result<bool, VmdkError>)
    ensures
        error::seen(found) == match descriptor {
            Ok(text) => descriptor::supported_header(text@),
            Err(error) => if is_other_format(error.kind) {
                Ok(false)
            } else {
                Err(error@)
            },
        },
        descriptor matches Err(error) ==> (found is Ok <==> error.kind == ErrorKind::InvalidData
            || error.kind == ErrorKind::UnexpectedEof || error.kind == ErrorKind::Unsupported),
        descriptor is Err ==> found != Ok::<bool, VmdkError>(true),
{
    match descriptor {
        Ok(text) => has_supported_descriptor_header(text.as_str()),
        Err(error) => match error.kind {
            ErrorKind::InvalidData | ErrorKind::UnexpectedEof | ErrorKind::Unsupported => Ok(false),
            _ => Err(error),
        },
    }
}

} // verus!
