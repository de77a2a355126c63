//! The descriptor: the text that names the extents of a disk.
//!
//! A descriptor is read line by line. White space around a line does not count,
//! and empty lines and lines that start with `#` say nothing. Of the rest, the
//! statements, a `key=value` line is a header setting, and a line that starts
//! with an access type describes an extent:
//!
//! ```text
//! version=1
//! createType="monolithicFlat"
//! RW 8192 FLAT "disk-flat.vmdk" 0
//! ```

use crate::error::{invalid_data, ErrorKind, VmdkError};
use crate::text::{
    before_white_space, chars_of, count_words, parse_number, same_text, split_at_first, split_word,
    trim,
};
use crate::{error, text};
use vstd::prelude::*;
use vstd::string::*;

verus! {

/// What may be done with the sectors of an extent.
#[derive(Clone, Copy, Debug, PartialEq, Eq, Structural)]
pub enum VmdkAccess {
    ReadWrite,
    ReadOnly,
    NoAccess,
}

/// Where the sectors of a described extent are kept.
#[derive(Debug)]
pub enum ParsedStorage {
    /// In a file, from a sector on.
    Flat { filename: String, offset: u64 },
    /// Nowhere: they are zero.
    Zero,
}

/// An extent as the descriptor describes it.
#[derive(Debug)]
pub struct ParsedExtent {
    pub access: VmdkAccess,
    pub sectors: u64,
    pub storage: Option<ParsedStorage>,
}

/// The view of a [`ParsedStorage`].
pub enum StorageView {
    Flat { filename: Seq<char>, offset: u64 },
    Zero,
}

/// The view of a [`ParsedExtent`].
pub struct ExtentView {
    pub access: VmdkAccess,
    pub sectors: u64,
    pub storage: Option<StorageView>,
}

impl View for ParsedStorage {
    type V = StorageView;

    open spec fn view(&self) -> StorageView {
        match *self {
            ParsedStorage::Flat { filename, offset } => StorageView::Flat {
                filename: filename@,
                offset,
            },
            ParsedStorage::Zero => StorageView::Zero,
        }
    }
}

impl View for ParsedExtent {
    type V = ExtentView;

    open spec fn view(&self) -> ExtentView {
        ExtentView {
            access: self.access,
            sectors: self.sectors,
            storage: match self.storage {
                Some(storage) => Some(storage@),
                None => None,
            },
        }
    }
}

/// The views of described extents.
pub open spec fn extent_views(extents: Seq<ParsedExtent>) -> Seq<ExtentView> {
    Seq::new(extents.len(), |i: int| extents[i]@)
}

/// The texts of strings.
pub open spec fn texts(strings: Seq<&str>) -> Seq<Seq<char>> {
    Seq::new(strings.len(), |i: int| strings[i]@)
}

/// Whether a line, without the white space around it, says anything.
pub open spec fn is_statement(line: Seq<char>) -> bool {
    line.len() > 0 && line[0] != '#'
}

/// The statements of a descriptor, in order. Lines end at line feeds; a carriage
/// return in front of one is white space.
pub open spec fn statements(descriptor: Seq<char>) -> Seq<Seq<char>> {
    text::split_all(descriptor, '\n').map_values(|line: Seq<char>| text::trimmed(line)).filter(
        |line: Seq<char>| is_statement(line),
    )
}

/// A value without the quotes around it, where it has both.
pub open spec fn unquoted(value: Seq<char>) -> Seq<char> {
    if value.len() >= 2 && value[0] == '"' && value.last() == '"' {
        value.subrange(1, value.len() - 1)
    } else {
        value
    }
}

/// The number that a header value writes, with or without quotes around it.
pub open spec fn numeric_value(value: Seq<char>) -> Result<u32, error::Failure> {
    match text::number_up_to(unquoted(value), u32::MAX as nat) {
        Some(number) => Ok(number as u32),
        None => Err(error::invalid_data_failure("invalid numeric value"@)),
    }
}

/// What a statement says of the header.
#[derive(Clone, Copy, Debug, PartialEq, Eq, Structural)]
pub enum Ruling {
    /// Nothing.
    Silent,
    /// The version, and it is supported.
    Version,
    /// The type of the disk, and it is supported.
    CreateType,
    /// A version or a type that is not supported.
    Refused,
}

pub open spec fn is_supported_type(create_type: Seq<char>) -> bool {
    create_type == "monolithicFlat"@ || create_type == "twoGbMaxExtentFlat"@
}

/// What a statement says of the header, or why its version cannot be read.
pub open spec fn ruling(statement: Seq<char>) -> Result<Ruling, error::Failure> {
    match text::split_once(statement, '=') {
        None => Ok(Ruling::Silent),
        Some((key, value)) => if text::trimmed(key) == "version"@ {
            match numeric_value(text::trimmed(value)) {
                Ok(version) => Ok(
                    if 1 <= version <= 3 {
                        Ruling::Version
                    } else {
                        Ruling::Refused
                    },
                ),
                Err(failure) => Err(failure),
            }
        } else if text::trimmed(key) == "createType"@ {
            Ok(
                if is_supported_type(unquoted(text::trimmed(value))) {
                    Ruling::CreateType
                } else {
                    Ruling::Refused
                },
            )
        } else {
            Ok(Ruling::Silent)
        },
    }
}

/// Whether statements make a supported header, given what those in front of
/// them said. Nothing is read past the statement that decides.
pub open spec fn header_verdict(
    statements: Seq<Seq<char>>,
    has_version: bool,
    has_type: bool,
) -> Result<bool, error::Failure>
    decreases statements.len(),
{
    if has_version && has_type {
        Ok(true)
    } else if statements.len() == 0 {
        Ok(false)
    } else {
        let rest = statements.drop_first();
        match ruling(statements[0]) {
            Ok(Ruling::Silent) => header_verdict(rest, has_version, has_type),
            Ok(Ruling::Version) => header_verdict(rest, true, has_type),
            Ok(Ruling::CreateType) => header_verdict(rest, has_version, true),
            Ok(Ruling::Refused) => Ok(false),
            Err(failure) => Err(failure),
        }
    }
}

/// Whether a descriptor has a supported header.
pub open spec fn supported_header(descriptor: Seq<char>) -> Result<bool, error::Failure> {
    header_verdict(statements(descriptor), false, false)
}

/// The access that a word stands for.
pub open spec fn access_word(word: Seq<char>) -> Option<VmdkAccess> {
    if word == "RW"@ {
        Some(VmdkAccess::ReadWrite)
    } else if word == "RDONLY"@ {
        Some(VmdkAccess::ReadOnly)
    } else if word == "NOACCESS"@ {
        Some(VmdkAccess::NoAccess)
    } else {
        None
    }
}

/// The sector that a flat extent starts at in its file: the first word behind
/// the file's name, or 0.
pub open spec fn flat_offset(after: Seq<char>) -> Option<u64> {
    if text::words(after).len() == 0 {
        Some(0)
    } else {
        match text::number_up_to(text::words(after)[0], u64::MAX as nat) {
            Some(number) => Some(number as u64),
            None => None,
        }
    }
}

/// The storage of a `FLAT` extent: its file's name stands in quotes as the
/// fourth word.
pub open spec fn flat_storage(line: Seq<char>) -> Result<StorageView, error::Failure> {
    match text::split_once(line, '"') {
        None => Err(error::invalid_data_failure("extent filename missing"@)),
        Some((before, rest)) => match text::split_once(rest, '"') {
            None => Err(error::invalid_data_failure("extent filename not terminated"@)),
            Some((name, after)) => if text::words(before).len() != 3 {
                Err(error::invalid_data_failure("extent filename appears at unexpected position"@))
            } else {
                match flat_offset(after) {
                    None => Err(error::invalid_data_failure("invalid extent offset"@)),
                    Some(offset) => Ok(
                        StorageView::Flat { filename: text::trimmed(name), offset },
                    ),
                }
            },
        },
    }
}

/// What the third word of an extent line, and what follows it, say of the
/// storage.
pub open spec fn extent_storage(line: Seq<char>) -> Result<StorageView, error::Failure> {
    let words = text::words(line);
    if words.len() < 3 {
        Err(error::invalid_data_failure("extent type missing"@))
    } else if words[2] == "ZERO"@ {
        Ok(StorageView::Zero)
    } else if words[2] == "FLAT"@ {
        flat_storage(line)
    } else {
        Err(
            error::Failure {
                kind: error::ErrorKind::Unsupported,
                message: "unsupported VMDK extent type: "@ + words[2],
            },
        )
    }
}

/// The extent that a line describes, or what is wrong with the line.
pub open spec fn extent_line(line: Seq<char>) -> Result<ExtentView, error::Failure> {
    let words = text::words(line);
    if words.len() == 0 {
        Err(error::invalid_data_failure("access type missing"@))
    } else if access_word(words[0]) is None {
        Err(error::invalid_data_failure("invalid access type"@))
    } else if words.len() < 2 {
        Err(error::invalid_data_failure("sector count missing"@))
    } else if text::number_up_to(words[1], u64::MAX as nat) is None {
        Err(error::invalid_data_failure("invalid sector count"@))
    } else {
        let access = access_word(words[0])->0;
        let sectors = text::number_up_to(words[1], u64::MAX as nat)->0 as u64;
        if access == VmdkAccess::NoAccess {
            Ok(ExtentView { access, sectors, storage: None })
        } else {
            match extent_storage(line) {
                Ok(storage) => Ok(ExtentView { access, sectors, storage: Some(storage) }),
                Err(failure) => Err(failure),
            }
        }
    }
}

/// Whether a statement describes an extent: its first word is an access type,
/// and it goes on behind that word.
pub open spec fn is_extent_statement(statement: Seq<char>) -> bool {
    &&& text::word_len(statement) < statement.len()
    &&& access_word(statement.take(text::word_len(statement) as int)) is Some
}

/// The extents that lines describe, or what is wrong with the first bad line.
pub open spec fn extents_of(lines: Seq<Seq<char>>) -> Result<Seq<ExtentView>, error::Failure>
    decreases lines.len(),
{
    if lines.len() == 0 {
        Ok(Seq::empty())
    } else {
        match extents_of(lines.drop_last()) {
            Err(failure) => Err(failure),
            Ok(extents) => match extent_line(lines.last()) {
                Err(failure) => Err(failure),
                Ok(extent) => Ok(extents.push(extent)),
            },
        }
    }
}

/// The lines of a descriptor that describe extents.
pub open spec fn extent_statements(descriptor: Seq<char>) -> Seq<Seq<char>> {
    statements(descriptor).filter(|statement: Seq<char>| is_extent_statement(statement))
}

/// The extents that a descriptor describes, or why it is rejected.
pub open spec fn described_extents(descriptor: Seq<char>) -> Result<
    Seq<ExtentView>,
    error::Failure,
> {
    match supported_header(descriptor) {
        Err(failure) => Err(failure),
        Ok(false) => Err(error::invalid_data_failure("missing required VMDK header fields"@)),
        Ok(true) => match extents_of(extent_statements(descriptor)) {
            Err(failure) => Err(failure),
            Ok(extents) => if extents.len() == 0 {
                Err(error::invalid_data_failure("VMDK descriptor does not contain extents"@))
            } else {
                Ok(extents)
            },
        },
    }
}

/// Whether the first `n` statements decide for a supported header: they name a
/// supported version and a supported type, and nothing that is not supported.
pub open spec fn decides_for(statements: Seq<Seq<char>>, n: int) -> bool {
    &&& 0 <= n <= statements.len()
    &&& forall|i: int|
        0 <= i < n ==> (ruling(#[trigger] statements[i]) matches Ok(said) && said
            != Ruling::Refused)
    &&& exists|i: int|
        0 <= i < n && ruling(#[trigger] statements[i]) == Ok::<Ruling, error::Failure>(
            Ruling::Version,
        )
    &&& exists|i: int|
        0 <= i < n && ruling(#[trigger] statements[i]) == Ok::<Ruling, error::Failure>(
            Ruling::CreateType,
        )
}

proof fn lemma_header_verdict(
    statements: Seq<Seq<char>>,
    n: int,
    has_version: bool,
    has_type: bool,
)
    requires
        0 <= n <= statements.len(),
        forall|i: int|
            0 <= i < n ==> (ruling(#[trigger] statements[i]) matches Ok(said) && said
                != Ruling::Refused),
        has_version || exists|i: int|
            0 <= i < n && ruling(#[trigger] statements[i]) == Ok::<Ruling, error::Failure>(
                Ruling::Version,
            ),
        has_type || exists|i: int|
            0 <= i < n && ruling(#[trigger] statements[i]) == Ok::<Ruling, error::Failure>(
                Ruling::CreateType,
            ),
    ensures
        header_verdict(statements, has_version, has_type) == Ok::<bool, error::Failure>(true),
    decreases n,
{
    if !(has_version && has_type) {
        let rest = statements.drop_first();
        assert(n > 0);
        assert forall|i: int| 0 <= i < n - 1 implies (ruling(#[trigger] rest[i]) matches Ok(said)
            && said != Ruling::Refused) by {
            assert(rest[i] == statements[i + 1]);
        }
        let now = ruling(statements[0])->Ok_0;
        let version = has_version || now == Ruling::Version;
        let kind = has_type || now == Ruling::CreateType;
        if !version {
            let i = choose|i: int|
                0 <= i < n && ruling(#[trigger] statements[i]) == Ok::<Ruling, error::Failure>(
                    Ruling::Version,
                );
            assert(rest[i - 1] == statements[i]);
        }
        if !kind {
            let i = choose|i: int|
                0 <= i < n && ruling(#[trigger] statements[i]) == Ok::<Ruling, error::Failure>(
                    Ruling::CreateType,
                );
            assert(rest[i - 1] == statements[i]);
        }
        lemma_header_verdict(rest, n - 1, version, kind);
    }
}

proof fn lemma_header_decided(
    statements: Seq<Seq<char>>,
    has_version: bool,
    has_type: bool,
) -> (n: int)
    requires
        header_verdict(statements, has_version, has_type) == Ok::<bool, error::Failure>(true),
    ensures
        0 <= n <= statements.len(),
        forall|i: int|
            0 <= i < n ==> (ruling(#[trigger] statements[i]) matches Ok(said) && said
                != Ruling::Refused),
        has_version || exists|i: int|
            0 <= i < n && ruling(#[trigger] statements[i]) == Ok::<Ruling, error::Failure>(
                Ruling::Version,
            ),
        has_type || exists|i: int|
            0 <= i < n && ruling(#[trigger] statements[i]) == Ok::<Ruling, error::Failure>(
                Ruling::CreateType,
            ),
    decreases statements.len(),
{
    if has_version && has_type {
        0
    } else {
        let rest = statements.drop_first();
        let now = ruling(statements[0])->Ok_0;
        let version = has_version || now == Ruling::Version;
        let kind = has_type || now == Ruling::CreateType;
        let m = lemma_header_decided(rest, version, kind);
        let n = m + 1;
        assert forall|i: int| 0 <= i < n implies (ruling(#[trigger] statements[i]) matches Ok(said)
            && said != Ruling::Refused) by {
            if i > 0 {
                assert(rest[i - 1] == statements[i]);
            }
        }
        if !version {
            let i = choose|i: int|
                0 <= i < m && ruling(#[trigger] rest[i]) == Ok::<Ruling, error::Failure>(
                    Ruling::Version,
                );
            assert(statements[i + 1] == rest[i]);
        } else if !has_version {
            assert(ruling(statements[0]) == Ok::<Ruling, error::Failure>(Ruling::Version));
        }
        if !kind {
            let i = choose|i: int|
                0 <= i < m && ruling(#[trigger] rest[i]) == Ok::<Ruling, error::Failure>(
                    Ruling::CreateType,
                );
            assert(statements[i + 1] == rest[i]);
        } else if !has_type {
            assert(ruling(statements[0]) == Ok::<Ruling, error::Failure>(Ruling::CreateType));
        }
        n
    }
}

/// A descriptor is supported if and only if it names, in any order, a supported
/// version and a supported type before it names one that is not supported or
/// cannot be read. What follows does not matter.
pub proof fn law_supported_header(descriptor: Seq<char>)
    ensures
        supported_header(descriptor) == Ok::<bool, error::Failure>(true) <==> exists|n: int|
            decides_for(statements(descriptor), n),
{
    let all = statements(descriptor);
    if supported_header(descriptor) == Ok::<bool, error::Failure>(true) {
        let n = lemma_header_decided(all, false, false);
        assert(decides_for(all, n));
    }
    if exists|n: int| decides_for(all, n) {
        let n = choose|n: int| decides_for(all, n);
        lemma_header_verdict(all, n, false, false);
    }
}

/// Whether a failure is one of the format's own: the descriptor breaks the format,
/// or asks for what is not supported.
pub open spec fn is_format_failure(failure: error::Failure) -> bool {
    failure.kind == ErrorKind::InvalidData || failure.kind == ErrorKind::Unsupported
}

proof fn lemma_header_failure(statements: Seq<Seq<char>>, has_version: bool, has_type: bool)
    ensures
        header_verdict(statements, has_version, has_type) matches Err(failure)
            ==> is_format_failure(failure),
    decreases statements.len(),
{
    if statements.len() > 0 {
        let rest = statements.drop_first();
        lemma_header_failure(rest, has_version, has_type);
        lemma_header_failure(rest, true, has_type);
        lemma_header_failure(rest, has_version, true);
    }
}

proof fn lemma_extents_of(lines: Seq<Seq<char>>)
    ensures
        match extents_of(lines) {
            Ok(extents) => {
                &&& extents.len() == lines.len()
                &&& forall|i: int|
                    0 <= i < lines.len() ==> extent_line(lines[i]) == Ok::<
                        ExtentView,
                        error::Failure,
                    >(#[trigger] extents[i])
            },
            Err(failure) => is_format_failure(failure) && exists|i: int|
                0 <= i < lines.len() && extent_line(#[trigger] lines[i]) == Err::<
                    ExtentView,
                    error::Failure,
                >(failure),
        },
    decreases lines.len(),
{
    if lines.len() > 0 {
        let front = lines.drop_last();
        lemma_extents_of(front);
        match extents_of(lines) {
            Ok(extents) => {
                assert forall|i: int| 0 <= i < lines.len() implies extent_line(lines[i]) == Ok::<
                    ExtentView,
                    error::Failure,
                >(#[trigger] extents[i]) by {
                    if i < front.len() {
                        assert(extents[i] == extents_of(front)->Ok_0[i]);
                    }
                }
            },
            Err(failure) => {
                if extents_of(front) is Err {
                    let i = choose|i: int|
                        0 <= i < front.len() && extent_line(#[trigger] front[i]) == Err::<
                            ExtentView,
                            error::Failure,
                        >(failure);
                    assert(lines[i] == front[i]);
                } else {
                    assert(lines[lines.len() - 1] == lines.last());
                }
            },
        }
    }
}

/// A descriptor that is accepted has a supported header and at least one extent.
/// Its extents are those of its extent lines, one for one and in order.
pub proof fn law_accepted_descriptor(descriptor: Seq<char>)
    ensures
        described_extents(descriptor) matches Ok(extents) ==> {
            &&& supported_header(descriptor) == Ok::<bool, error::Failure>(true)
            &&& extents.len() > 0
            &&& extents.len() == extent_statements(descriptor).len()
            &&& forall|i: int|
                0 <= i < extents.len() ==> extent_line(extent_statements(descriptor)[i]) == Ok::<
                    ExtentView,
                    error::Failure,
                >(#[trigger] extents[i])
        },
{
    lemma_extents_of(extent_statements(descriptor));
}

/// A descriptor is rejected for what it says: opening its disk then fails of the
/// format or of an unsupported feature, never of input or output.
pub proof fn law_rejected_descriptor(descriptor: Seq<char>)
    ensures
        described_extents(descriptor) matches Err(failure) ==> {
            &&& is_format_failure(failure)
            &&& error::open_failure(failure).kind != error::BlockErrorKind::Io
        },
{
    lemma_header_failure(statements(descriptor), false, false);
    lemma_extents_of(extent_statements(descriptor));
}

/// An extent has no storage if and only if it must not be accessed.
pub proof fn law_storage_of_extent(line: Seq<char>)
    ensures
        extent_line(line) matches Ok(extent) ==> (extent.storage is None <==> extent.access
            == VmdkAccess::NoAccess),
{
}

/// A value in quotes stands for what is between them. Any other value stands for
/// itself.
pub proof fn law_unquoted(inner: Seq<char>, value: Seq<char>)
    ensures
        unquoted(seq!['"'] + inner + seq!['"']) == inner,
        !(value.len() >= 2 && value[0] == '"' && value[value.len() - 1] == '"') ==> unquoted(value)
            == value,
{
    let quoted = seq!['"'] + inner + seq!['"'];
    assert(quoted.subrange(1, quoted.len() - 1) =~= inner);
}

/// A number of the header is read from its decimal form, with or without quotes, if and
/// only if it is not too large.
pub proof fn law_numeric_value(count: nat, value: nat)
    ensures
        ({
            let written = text::zeroes(count) + text::decimal(value);
            let expected = if value <= u32::MAX {
                Ok::<u32, error::Failure>(value as u32)
            } else {
                Err(error::invalid_data_failure("invalid numeric value"@))
            };
            &&& numeric_value(written) == expected
            &&& numeric_value(seq!['"'] + written + seq!['"']) == expected
        }),
{
    let written = text::zeroes(count) + text::decimal(value);
    text::law_number_of_decimal(count, value, u32::MAX as nat);
    text::law_number_of_decimal(count, value, value);
    text::law_number_is_digits(written, value);
    law_unquoted(written, written);
}

/// A number of the header that is read is what the digits in it write.
pub proof fn law_numeric_value_is_number(value: Seq<char>)
    ensures
        match numeric_value(value) {
            Ok(number) => text::number_up_to(unquoted(value), 0xffff_ffff) == Some(number as nat),
            Err(failure) => {
                &&& text::number_up_to(unquoted(value), 0xffff_ffff) is None
                &&& failure == (error::Failure {
                    kind: ErrorKind::InvalidData,
                    message: "invalid numeric value"@,
                })
            },
        },
{
}

/// A setting decides for or against the header by its key and its value alone. The
/// version must be 1, 2 or 3 and the type one of two; no other key decides anything.
pub proof fn law_settings(key: Seq<char>, value: Seq<char>)
    requires
        !key.contains('='),
    ensures
        ({
            let said = ruling(key + seq!['='] + value);
            let key = text::trimmed(key);
            let value = text::trimmed(value);
            &&& key != "version"@ && key != "createType"@ ==> said == Ok::<Ruling, error::Failure>(
                Ruling::Silent,
            )
            &&& key == "version"@ ==> match numeric_value(value) {
                Ok(number) => said == Ok::<Ruling, error::Failure>(
                    if number == 1 || number == 2 || number == 3 {
                        Ruling::Version
                    } else {
                        Ruling::Refused
                    },
                ),
                Err(failure) => said == Err::<Ruling, error::Failure>(failure),
            }
            &&& key == "createType"@ ==> said == Ok::<Ruling, error::Failure>(
                if unquoted(value) == "monolithicFlat"@ || unquoted(value)
                    == "twoGbMaxExtentFlat"@ {
                    Ruling::CreateType
                } else {
                    Ruling::Refused
                },
            )
        }),
{
    text::law_split_once(key, '=', value);
    reveal_strlit("version");
    reveal_strlit("createType");
    assert("version"@.len() != "createType"@.len());
}

/// A statement without a setting decides nothing.
pub proof fn law_no_setting(statement: Seq<char>)
    requires
        !statement.contains('='),
    ensures
        ruling(statement) == Ok::<Ruling, error::Failure>(Ruling::Silent),
{
    text::law_split_once(statement, '=', Seq::empty());
}

/// Whether a statement is no setting, or one whose key is neither the version nor the
/// type.
pub open spec fn is_unrelated(statement: Seq<char>) -> bool {
    !statement.contains('=') || {
        let key = text::trimmed(statement.take(statement.index_of_first('=')->0));
        key != "version"@ && key != "createType"@
    }
}

proof fn lemma_unrelated(statement: Seq<char>)
    requires
        is_unrelated(statement),
    ensures
        ruling(statement) == Ok::<Ruling, error::Failure>(Ruling::Silent),
{
    statement.index_of_first_ensures('=');
    if statement.contains('=') {
        let i = statement.index_of_first('=')->0;
        let key = statement.take(i);
        let value = statement.skip(i + 1);
        assert(!key.contains('='));
        assert(statement =~= key + seq!['='] + value);
        law_settings(key, value);
    } else {
        law_no_setting(statement);
    }
}

/// The verdict on statements is the same with and without a statement that is unrelated.
pub proof fn law_unrelated_statement(
    before: Seq<Seq<char>>,
    statement: Seq<char>,
    after: Seq<Seq<char>>,
    has_version: bool,
    has_type: bool,
)
    requires
        is_unrelated(statement),
    ensures
        header_verdict(before + seq![statement] + after, has_version, has_type) == header_verdict(
            before + after,
            has_version,
            has_type,
        ),
    decreases before.len(),
{
    let with = before + seq![statement] + after;
    let without = before + after;
    lemma_unrelated(statement);
    if before.len() == 0 {
        assert(with.drop_first() =~= without);
        assert(with[0] == statement);
    } else {
        let rest = before.drop_first();
        assert(with.drop_first() =~= rest + seq![statement] + after);
        assert(without.drop_first() =~= rest + after);
        assert(with[0] == before[0] && without[0] == before[0]);
        law_unrelated_statement(rest, statement, after, has_version, has_type);
        law_unrelated_statement(rest, statement, after, true, has_type);
        law_unrelated_statement(rest, statement, after, has_version, true);
    }
}

/// Two texts with a line feed between them say what the one says and then what the
/// other says.
pub proof fn law_statements_joined(first: Seq<char>, second: Seq<char>)
    ensures
        statements(first + seq!['\n'] + second) == statements(first) + statements(second),
        extent_statements(first + seq!['\n'] + second) == extent_statements(first)
            + extent_statements(second),
{
    let trim = |line: Seq<char>| text::trimmed(line);
    let says = |line: Seq<char>| is_statement(line);
    let is_extent = |statement: Seq<char>| is_extent_statement(statement);
    let a = text::split_all(first, '\n');
    let b = text::split_all(second, '\n');
    text::law_split_all_joined(first, '\n', second);
    assert((a + b).map_values(trim) =~= a.map_values(trim) + b.map_values(trim));
    Seq::filter_distributes_over_add(a.map_values(trim), b.map_values(trim), says);
    Seq::filter_distributes_over_add(statements(first), statements(second), is_extent);
}

/// A line says itself, without the white space around it, unless nothing is left of it
/// or it starts with `#`.
pub proof fn law_statement_of_line(line: Seq<char>)
    requires
        !line.contains('\n'),
    ensures
        statements(line) == (if text::trimmed(line).len() == 0 || text::trimmed(line)[0] == '#' {
            Seq::<Seq<char>>::empty()
        } else {
            seq![text::trimmed(line)]
        }),
{
    let trim = |line: Seq<char>| text::trimmed(line);
    let says = |line: Seq<char>| is_statement(line);
    text::law_split_once(line, '\n', Seq::empty());
    lemma_statements_step(line, Seq::empty());
    assert(Seq::<Seq<char>>::empty().map_values(trim) =~= Seq::empty());
    reveal(Seq::filter);
    assert(Seq::<Seq<char>>::empty().filter(says) =~= Seq::empty());
    assert(seq![line] + Seq::<Seq<char>>::empty() =~= seq![line]);
    assert(seq![text::trimmed(line)] + Seq::<Seq<char>>::empty() =~= seq![text::trimmed(line)]);
}

/// Whether a descriptor is supported does not depend on comments, empty lines and lines
/// whose key is neither the version nor the type.
pub proof fn law_unrelated_line(before: Seq<char>, line: Seq<char>, after: Seq<char>)
    requires
        !line.contains('\n'),
        text::trimmed(line).len() == 0 || text::trimmed(line)[0] == '#' || is_unrelated(
            text::trimmed(line),
        ),
    ensures
        supported_header(before + seq!['\n'] + (line + seq!['\n'] + after)) == supported_header(
            before + seq!['\n'] + after,
        ),
        supported_header(line + seq!['\n'] + after) == supported_header(after),
        supported_header(before + seq!['\n'] + line) == supported_header(before),
{
    let a = statements(before);
    let b = statements(after);
    law_statements_joined(before, line + seq!['\n'] + after);
    law_statements_joined(line, after);
    law_statements_joined(before, after);
    law_statements_joined(before, line);
    law_statement_of_line(line);
    let none = Seq::<Seq<char>>::empty();
    if text::trimmed(line).len() == 0 || text::trimmed(line)[0] == '#' {
        assert(a + (none + b) =~= a + b);
        assert(none + b =~= b);
        assert(a + none =~= a);
    } else {
        let t = text::trimmed(line);
        law_unrelated_statement(a, t, b, false, false);
        law_unrelated_statement(none, t, b, false, false);
        law_unrelated_statement(a, t, none, false, false);
        assert(a + (seq![t] + b) =~= a + seq![t] + b);
        assert(none + seq![t] + b =~= seq![t] + b);
        assert(none + b =~= b);
        assert(a + seq![t] + none =~= a + seq![t]);
        assert(a + none =~= a);
    }
}

/// Whether the first `n` statements leave the header open: they refuse nothing, and do
/// not name both the version and the type.
pub open spec fn leaves_open(statements: Seq<Seq<char>>, n: int) -> bool {
    &&& 0 <= n <= statements.len()
    &&& forall|i: int|
        0 <= i < n ==> (ruling(#[trigger] statements[i]) matches Ok(said) && said
            != Ruling::Refused)
    &&& (forall|i: int|
        0 <= i < n ==> ruling(#[trigger] statements[i]) != Ok::<Ruling, error::Failure>(
            Ruling::Version,
        )) || (forall|i: int|
        0 <= i < n ==> ruling(#[trigger] statements[i]) != Ok::<Ruling, error::Failure>(
            Ruling::CreateType,
        ))
}

/// The verdict on statements goes by the first, and then by those behind it.
pub proof fn law_header_step(
    statement: Seq<char>,
    rest: Seq<Seq<char>>,
    has_version: bool,
    has_type: bool,
)
    ensures
        has_version && has_type ==> header_verdict(rest, has_version, has_type) == Ok::<
            bool,
            error::Failure,
        >(true),
        !(has_version && has_type) ==> {
            let verdict = header_verdict(seq![statement] + rest, has_version, has_type);
            &&& header_verdict(Seq::empty(), has_version, has_type) == Ok::<bool, error::Failure>(
                false,
            )
            &&& match ruling(statement) {
                Ok(Ruling::Silent) => verdict == header_verdict(rest, has_version, has_type),
                Ok(Ruling::Version) => verdict == header_verdict(rest, true, has_type),
                Ok(Ruling::CreateType) => verdict == header_verdict(rest, has_version, true),
                Ok(Ruling::Refused) => verdict == Ok::<bool, error::Failure>(false),
                Err(failure) => verdict == Err::<bool, error::Failure>(failure),
            }
        },
{
    let all = seq![statement] + rest;
    assert(all.drop_first() =~= rest);
    assert(all[0] == statement);
}

proof fn lemma_header_unreadable(
    statements: Seq<Seq<char>>,
    n: int,
    has_version: bool,
    has_type: bool,
)
    requires
        0 <= n < statements.len(),
        forall|i: int|
            0 <= i < n ==> (ruling(#[trigger] statements[i]) matches Ok(said) && said
                != Ruling::Refused),
        (!has_version && forall|i: int|
            0 <= i < n ==> ruling(#[trigger] statements[i]) != Ok::<Ruling, error::Failure>(
                Ruling::Version,
            )) || (!has_type && forall|i: int|
            0 <= i < n ==> ruling(#[trigger] statements[i]) != Ok::<Ruling, error::Failure>(
                Ruling::CreateType,
            )),
        ruling(statements[n]) is Err,
    ensures
        header_verdict(statements, has_version, has_type) == Err::<bool, error::Failure>(
            ruling(statements[n])->Err_0,
        ),
    decreases n,
{
    if n > 0 {
        let rest = statements.drop_first();
        assert forall|i: int| 0 <= i < n - 1 implies (ruling(#[trigger] rest[i]) matches Ok(said)
            && said != Ruling::Refused) by {
            assert(rest[i] == statements[i + 1]);
        }
        assert(forall|i: int| 0 <= i < n - 1 ==> #[trigger] rest[i] == statements[i + 1]);
        assert(rest[n - 1] == statements[n]);
        let now = ruling(statements[0])->Ok_0;
        lemma_header_unreadable(
            rest,
            n - 1,
            has_version || now == Ruling::Version,
            has_type || now == Ruling::CreateType,
        );
    }
}

/// A descriptor whose header is still open fails on a version that cannot be read.
pub proof fn law_unreadable_version(descriptor: Seq<char>, n: int)
    requires
        leaves_open(statements(descriptor), n),
        n < statements(descriptor).len(),
        ruling(statements(descriptor)[n]) is Err,
    ensures
        supported_header(descriptor) == Err::<bool, error::Failure>(
            ruling(statements(descriptor)[n])->Err_0,
        ),
{
    lemma_header_unreadable(statements(descriptor), n, false, false);
}

/// A descriptor whose header is still open is refused by an unsupported version or type,
/// and where it ends.
pub proof fn law_refused_header(descriptor: Seq<char>, n: int)
    requires
        leaves_open(statements(descriptor), n),
        n == statements(descriptor).len() || ruling(statements(descriptor)[n]) == Ok::<
            Ruling,
            error::Failure,
        >(Ruling::Refused),
    ensures
        supported_header(descriptor) == Ok::<bool, error::Failure>(false),
{
    lemma_header_refused(statements(descriptor), n, false, false);
}

proof fn lemma_header_refused(
    statements: Seq<Seq<char>>,
    n: int,
    has_version: bool,
    has_type: bool,
)
    requires
        0 <= n <= statements.len(),
        forall|i: int|
            0 <= i < n ==> (ruling(#[trigger] statements[i]) matches Ok(said) && said
                != Ruling::Refused),
        (!has_version && forall|i: int|
            0 <= i < n ==> ruling(#[trigger] statements[i]) != Ok::<Ruling, error::Failure>(
                Ruling::Version,
            )) || (!has_type && forall|i: int|
            0 <= i < n ==> ruling(#[trigger] statements[i]) != Ok::<Ruling, error::Failure>(
                Ruling::CreateType,
            )),
        n == statements.len() || ruling(statements[n]) == Ok::<Ruling, error::Failure>(
            Ruling::Refused,
        ),
    ensures
        header_verdict(statements, has_version, has_type) == Ok::<bool, error::Failure>(false),
    decreases n,
{
    if n > 0 {
        let rest = statements.drop_first();
        assert forall|i: int| 0 <= i < n - 1 implies (ruling(#[trigger] rest[i]) matches Ok(said)
            && said != Ruling::Refused) by {
            assert(rest[i] == statements[i + 1]);
        }
        assert(forall|i: int| 0 <= i < n - 1 ==> #[trigger] rest[i] == statements[i + 1]);
        if n < statements.len() {
            assert(rest[n - 1] == statements[n]);
        }
        let now = ruling(statements[0])->Ok_0;
        lemma_header_refused(
            rest,
            n - 1,
            has_version || now == Ruling::Version,
            has_type || now == Ruling::CreateType,
        );
    }
}

proof fn lemma_lacks(a: Seq<char>, b: Seq<char>, c: char)
    requires
        !a.contains(c),
        !b.contains(c),
    ensures
        !(a + b).contains(c),
{
    assert forall|i: int| 0 <= i < (a + b).len() implies (a + b)[i] != c by {
        if i < a.len() {
            assert((a + b)[i] == a[i]);
        } else {
            assert((a + b)[i] == b[i - a.len()]);
        }
    }
}

proof fn lemma_white_space_lacks_quote(s: Seq<char>)
    requires
        text::all_white_space(s),
    ensures
        !s.contains('"'),
{
    assert forall|i: int| 0 <= i < s.len() implies s[i] != '"' by {
        assert(text::is_white_space(s[i]));
    }
}

proof fn lemma_three_words(
    lead: Seq<char>,
    first: Seq<char>,
    gap: Seq<char>,
    second: Seq<char>,
    space: Seq<char>,
    third: Seq<char>,
    rest: Seq<char>,
)
    requires
        text::all_white_space(lead),
        text::is_word(first),
        gap.len() > 0,
        text::all_white_space(gap),
        text::is_word(second),
        space.len() > 0,
        text::all_white_space(space),
        text::is_word(third),
        text::ends_word(rest),
    ensures
        text::words(lead + first + gap + second + space + third + rest) == seq![
            first,
            second,
            third,
        ] + text::words(rest),
{
    let behind = space + third + rest;
    let middle = gap + second + behind;
    assert(text::is_white_space(space[0]));
    assert(text::is_white_space(gap[0]));
    assert(behind[0] == space[0]);
    assert(middle[0] == gap[0]);
    text::law_first_word(space, third, rest);
    text::law_first_word(gap, second, behind);
    text::law_first_word(lead, first, middle);
    assert(lead + first + gap + second + space + third + rest =~= lead + first + middle);
    assert(seq![first] + (seq![second] + (seq![third] + text::words(rest))) =~= seq![
        first,
        second,
        third,
    ] + text::words(rest));
}

proof fn lemma_number_is_word(s: Seq<char>)
    requires
        text::number_up_to(s, u64::MAX as nat) is Some,
    ensures
        text::is_word(s),
        !s.contains('"'),
{
    text::law_number_is_digits(s, u64::MAX as nat);
    assert forall|i: int| 0 <= i < s.len() implies !text::is_white_space(#[trigger] s[i]) && s[i]
        != '"' by {
        if i > 0 {
            assert('0' <= s[i] <= '9');
        } else if s[0] != '+' {
            assert('0' <= s[0] <= '9');
        }
    }
}

proof fn lemma_keywords()
    ensures
        text::is_word("RW"@),
        text::is_word("RDONLY"@),
        text::is_word("NOACCESS"@),
        text::is_word("FLAT"@),
        text::is_word("ZERO"@),
        "RW"@ != "RDONLY"@,
        "RW"@ != "NOACCESS"@,
        "RDONLY"@ != "NOACCESS"@,
        "FLAT"@ != "ZERO"@,
        !"RW"@.contains('"'),
        !"RDONLY"@.contains('"'),
        !"FLAT"@.contains('"'),
{
    reveal_strlit("RW");
    reveal_strlit("RDONLY");
    reveal_strlit("NOACCESS");
    reveal_strlit("FLAT");
    reveal_strlit("ZERO");
    assert("RW"@.len() == 2 && "RDONLY"@.len() == 6 && "NOACCESS"@.len() == 8);
    assert("FLAT"@[0] != "ZERO"@[0]);
}

/// What a `FLAT` line writes is what is read: the access, the number of sectors, the name
/// in quotes without the white space around it, and the sector behind the name, or 0
/// where nothing stands there.
pub proof fn law_flat_line(
    lead: Seq<char>,
    access: Seq<char>,
    gap: Seq<char>,
    sectors: Seq<char>,
    space: Seq<char>,
    margin: Seq<char>,
    name: Seq<char>,
    between: Seq<char>,
    sector: Seq<char>,
    rest: Seq<char>,
)
    requires
        text::all_white_space(lead),
        access == "RW"@ || access == "RDONLY"@,
        gap.len() > 0,
        text::all_white_space(gap),
        text::number_up_to(sectors, 0xffff_ffff_ffff_ffff) is Some,
        space.len() > 0,
        text::all_white_space(space),
        margin.len() > 0,
        text::all_white_space(margin),
        !name.contains('"'),
        text::all_white_space(between),
        if sector.len() == 0 {
            rest.len() == 0
        } else {
            text::is_word(sector) && text::ends_word(rest)
        },
    ensures
        ({
            let line = lead + access + gap + sectors + space + "FLAT"@ + margin + seq!['"'] + (name
                + seq!['"'] + (between + sector + rest));
            let offset = if sector.len() == 0 {
                Some(0nat)
            } else {
                text::number_up_to(sector, 0xffff_ffff_ffff_ffff)
            };
            match offset {
                Some(number) => extent_line(line) == Ok::<ExtentView, error::Failure>(
                    ExtentView {
                        access: if access == "RW"@ {
                            VmdkAccess::ReadWrite
                        } else {
                            VmdkAccess::ReadOnly
                        },
                        sectors: text::number_up_to(sectors, 0xffff_ffff_ffff_ffff)->0 as u64,
                        storage: Some(
                            StorageView::Flat {
                                filename: text::trimmed(name),
                                offset: number as u64,
                            },
                        ),
                    },
                ),
                None => extent_line(line) == Err::<ExtentView, error::Failure>(
                    error::invalid_data_failure("invalid extent offset"@),
                ),
            }
        }),
{
    let after = between + sector + rest;
    let inner = name + seq!['"'] + after;
    let before = lead + access + gap + sectors + space + "FLAT"@ + margin;
    let line = before + seq!['"'] + inner;
    let quoted = margin + seq!['"'] + inner;
    lemma_keywords();
    lemma_number_is_word(sectors);
    assert(text::is_white_space(margin[0]));
    assert(quoted[0] == margin[0]);
    lemma_three_words(lead, access, gap, sectors, space, "FLAT"@, quoted);
    assert(lead + access + gap + sectors + space + "FLAT"@ + quoted =~= line);
    let words = text::words(line);
    assert(words[0] == access && words[1] == sectors && words[2] == "FLAT"@);
    lemma_three_words(lead, access, gap, sectors, space, "FLAT"@, margin);
    text::law_no_words(margin);
    assert(text::words(before).len() == 3);
    lemma_white_space_lacks_quote(lead);
    lemma_white_space_lacks_quote(gap);
    lemma_white_space_lacks_quote(space);
    lemma_white_space_lacks_quote(margin);
    lemma_lacks(lead, access, '"');
    lemma_lacks(lead + access, gap, '"');
    lemma_lacks(lead + access + gap, sectors, '"');
    lemma_lacks(lead + access + gap + sectors, space, '"');
    lemma_lacks(lead + access + gap + sectors + space, "FLAT"@, '"');
    lemma_lacks(lead + access + gap + sectors + space + "FLAT"@, margin, '"');
    text::law_split_once(before, '"', inner);
    text::law_split_once(name, '"', after);
    if sector.len() == 0 {
        assert(after =~= between);
        text::law_no_words(after);
    } else {
        text::law_first_word(between, sector, rest);
        assert(text::words(after)[0] == sector);
    }
}

/// What a `ZERO` line writes is what is read, whatever stands behind the type.
pub proof fn law_zero_line(
    lead: Seq<char>,
    access: Seq<char>,
    gap: Seq<char>,
    sectors: Seq<char>,
    space: Seq<char>,
    rest: Seq<char>,
)
    requires
        text::all_white_space(lead),
        access == "RW"@ || access == "RDONLY"@,
        gap.len() > 0,
        text::all_white_space(gap),
        text::number_up_to(sectors, 0xffff_ffff_ffff_ffff) is Some,
        space.len() > 0,
        text::all_white_space(space),
        text::ends_word(rest),
    ensures
        extent_line(lead + access + gap + sectors + space + "ZERO"@ + rest) == Ok::<
            ExtentView,
            error::Failure,
        >(
            ExtentView {
                access: if access == "RW"@ {
                    VmdkAccess::ReadWrite
                } else {
                    VmdkAccess::ReadOnly
                },
                sectors: text::number_up_to(sectors, 0xffff_ffff_ffff_ffff)->0 as u64,
                storage: Some(StorageView::Zero),
            },
        ),
{
    let line = lead + access + gap + sectors + space + "ZERO"@ + rest;
    lemma_keywords();
    lemma_number_is_word(sectors);
    lemma_three_words(lead, access, gap, sectors, space, "ZERO"@, rest);
    let words = text::words(line);
    assert(words[0] == access && words[1] == sectors && words[2] == "ZERO"@);
}

/// A `NOACCESS` line gives the number of sectors, and what stands behind it does not
/// matter.
pub proof fn law_no_access_line(
    lead: Seq<char>,
    gap: Seq<char>,
    sectors: Seq<char>,
    rest: Seq<char>,
)
    requires
        text::all_white_space(lead),
        gap.len() > 0,
        text::all_white_space(gap),
        text::number_up_to(sectors, 0xffff_ffff_ffff_ffff) is Some,
        text::ends_word(rest),
    ensures
        extent_line(lead + "NOACCESS"@ + (gap + sectors + rest)) == Ok::<
            ExtentView,
            error::Failure,
        >(
            ExtentView {
                access: VmdkAccess::NoAccess,
                sectors: text::number_up_to(sectors, 0xffff_ffff_ffff_ffff)->0 as u64,
                storage: None,
            },
        ),
{
    let behind = gap + sectors + rest;
    let line = lead + "NOACCESS"@ + behind;
    lemma_keywords();
    lemma_number_is_word(sectors);
    assert(text::is_white_space(gap[0]));
    assert(behind[0] == gap[0]);
    text::law_first_word(gap, sectors, rest);
    text::law_first_word(lead, "NOACCESS"@, behind);
    let words = text::words(line);
    assert(words[0] == "NOACCESS"@ && words[1] == sectors);
}

/// An extent that is read is what its line writes: the access is the first word, the
/// number of sectors the second, the storage the third; the name of a file is what
/// stands between the first two quotes, with three words in front of it, and the
/// sector the first word behind it.
pub proof fn law_accepted_line(line: Seq<char>) -> (parts: (Seq<char>, Seq<char>, Seq<char>))
    requires
        extent_line(line) is Ok,
    ensures
        ({
            let extent = extent_line(line)->Ok_0;
            let words = text::words(line);
            let (before, name, after) = parts;
            &&& words.len() >= 2
            &&& text::number_up_to(words[1], 0xffff_ffff_ffff_ffff) == Some(extent.sectors as nat)
            &&& match extent.access {
                VmdkAccess::ReadWrite => words[0] == "RW"@,
                VmdkAccess::ReadOnly => words[0] == "RDONLY"@,
                VmdkAccess::NoAccess => words[0] == "NOACCESS"@,
            }
            &&& match extent.storage {
                None => extent.access == VmdkAccess::NoAccess,
                Some(StorageView::Zero) => {
                    &&& extent.access != VmdkAccess::NoAccess
                    &&& words.len() >= 3
                    &&& words[2] == "ZERO"@
                },
                Some(StorageView::Flat { filename, offset }) => {
                    &&& extent.access != VmdkAccess::NoAccess
                    &&& words.len() >= 3
                    &&& words[2] == "FLAT"@
                    &&& line == before + seq!['"'] + (name + seq!['"'] + after)
                    &&& !before.contains('"')
                    &&& !name.contains('"')
                    &&& text::words(before).len() == 3
                    &&& filename == text::trimmed(name)
                    &&& if text::words(after).len() == 0 {
                        offset == 0
                    } else {
                        text::number_up_to(text::words(after)[0], 0xffff_ffff_ffff_ffff) == Some(
                            offset as nat,
                        )
                    }
                },
            }
        }),
{
    lemma_keywords();
    line.index_of_first_ensures('"');
    let i = line.index_of_first('"')->0;
    let before = line.take(i);
    let rest = line.skip(i + 1);
    rest.index_of_first_ensures('"');
    let j = rest.index_of_first('"')->0;
    let name = rest.take(j);
    let after = rest.skip(j + 1);
    if extent_line(line)->Ok_0.storage matches Some(storage) && storage is Flat {
        assert(rest =~= name + seq!['"'] + after);
        assert(line =~= before + seq!['"'] + rest);
    }
    (before, name, after)
}

/// What is wrong with a line is the first of its words that is missing or cannot be read.
pub proof fn law_refused_line(line: Seq<char>)
    ensures
        ({
            let words = text::words(line);
            let is_access = words[0] == "RW"@ || words[0] == "RDONLY"@ || words[0] == "NOACCESS"@;
            let is_count = text::number_up_to(words[1], 0xffff_ffff_ffff_ffff) is Some;
            let refused = |message: Seq<char>|
                extent_line(line) == Err::<ExtentView, error::Failure>(
                    error::Failure { kind: ErrorKind::InvalidData, message },
                );
            &&& words.len() == 0 ==> refused("access type missing"@)
            &&& words.len() > 0 && !is_access ==> refused("invalid access type"@)
            &&& words.len() == 1 && is_access ==> refused("sector count missing"@)
            &&& words.len() > 1 && is_access && !is_count ==> refused("invalid sector count"@)
            &&& words.len() == 2 && is_access && is_count && words[0] != "NOACCESS"@ ==> refused(
                "extent type missing"@,
            )
            &&& words.len() > 2 && is_access && is_count && words[0] != "NOACCESS"@ && words[2]
                != "ZERO"@ && words[2] != "FLAT"@ ==> extent_line(line) == Err::<
                ExtentView,
                error::Failure,
            >(
                error::Failure {
                    kind: ErrorKind::Unsupported,
                    message: "unsupported VMDK extent type: "@ + words[2],
                },
            )
        }),
{
    lemma_keywords();
}

/// What is wrong with a `FLAT` line whose words can be read is the name of its file, which
/// must stand in quotes as the fourth word.
pub proof fn law_refused_flat_line(before: Seq<char>, name: Seq<char>, after: Seq<char>)
    requires
        !before.contains('"'),
        !name.contains('"'),
    ensures
        ({
            let none = before;
            let open = before + seq!['"'] + name;
            let closed = before + seq!['"'] + (name + seq!['"'] + after);
            let is_flat = |line: Seq<char>|
                {
                    let words = text::words(line);
                    &&& words.len() >= 3
                    &&& words[0] == "RW"@ || words[0] == "RDONLY"@
                    &&& text::number_up_to(words[1], 0xffff_ffff_ffff_ffff) is Some
                    &&& words[2] == "FLAT"@
                };
            let refused = |line: Seq<char>, message: Seq<char>|
                extent_line(line) == Err::<ExtentView, error::Failure>(
                    error::Failure { kind: ErrorKind::InvalidData, message },
                );
            &&& is_flat(none) ==> refused(none, "extent filename missing"@)
            &&& is_flat(open) ==> refused(open, "extent filename not terminated"@)
            &&& is_flat(closed) && text::words(before).len() != 3 ==> refused(
                closed,
                "extent filename appears at unexpected position"@,
            )
        }),
{
    lemma_keywords();
    text::law_split_once(before, '"', name);
    text::law_split_once(before, '"', name + seq!['"'] + after);
    text::law_split_once(name, '"', after);
}

/// A statement describes an extent if and only if it starts with an access type and white
/// space behind it.
pub proof fn law_extent_statement(word: Seq<char>, rest: Seq<char>)
    requires
        text::is_word(word),
        text::ends_word(rest),
    ensures
        is_extent_statement(word + rest) <==> rest.len() > 0 && (word == "RW"@ || word
            == "RDONLY"@ || word == "NOACCESS"@),
{
    text::law_first_word(Seq::empty(), word, rest);
    assert((word + rest).take(word.len() as int) =~= word);
}

/// The lines of a single line that describe extents: the line itself, without the white
/// space around it, or none.
pub proof fn law_extent_statement_of_line(line: Seq<char>)
    requires
        !line.contains('\n'),
    ensures
        ({
            let t = text::trimmed(line);
            extent_statements(line) == if t.len() > 0 && t[0] != '#' && is_extent_statement(t) {
                seq![t]
            } else {
                Seq::<Seq<char>>::empty()
            }
        }),
{
    let is_extent = |statement: Seq<char>| is_extent_statement(statement);
    let none = Seq::<Seq<char>>::empty();
    law_statement_of_line(line);
    reveal_with_fuel(Seq::filter, 2);
    assert(none.filter(is_extent) =~= none);
    let one = seq![text::trimmed(line)];
    assert(one.drop_last() =~= none);
    if is_extent_statement(text::trimmed(line)) {
        assert(one.filter(is_extent) =~= one);
    } else {
        assert(one.filter(is_extent) =~= none);
    }
}

/// A descriptor is accepted if and only if its header is supported and it has extent
/// lines, all of which can be read. Otherwise it fails of the header, of having none, or
/// of the first that cannot be read.
pub proof fn law_described_extents(descriptor: Seq<char>)
    ensures
        ({
            let lines = extent_statements(descriptor);
            let described = described_extents(descriptor);
            match supported_header(descriptor) {
                Err(failure) => described == Err::<Seq<ExtentView>, error::Failure>(failure),
                Ok(false) => described == Err::<Seq<ExtentView>, error::Failure>(
                    error::Failure {
                        kind: ErrorKind::InvalidData,
                        message: "missing required VMDK header fields"@,
                    },
                ),
                Ok(true) => {
                    &&& lines.len() == 0 ==> described == Err::<Seq<ExtentView>, error::Failure>(
                        error::Failure {
                            kind: ErrorKind::InvalidData,
                            message: "VMDK descriptor does not contain extents"@,
                        },
                    )
                    &&& lines.len() > 0 ==> match described {
                        Ok(extents) => {
                            &&& extents.len() == lines.len()
                            &&& forall|i: int|
                                0 <= i < lines.len() ==> extent_line(lines[i]) == Ok::<
                                    ExtentView,
                                    error::Failure,
                                >(#[trigger] extents[i])
                        },
                        Err(failure) => exists|i: int|
                            0 <= i < lines.len() && extent_line(#[trigger] lines[i]) == Err::<
                                ExtentView,
                                error::Failure,
                            >(failure) && forall|j: int|
                                0 <= j < i ==> extent_line(#[trigger] lines[j]) is Ok,
                    }
                },
            }
        }),
{
    let lines = extent_statements(descriptor);
    lemma_extents_of(lines);
    if extents_of(lines) is Err {
        lemma_first_of_bad_lines(lines);
    }
}

proof fn lemma_first_of_bad_lines(lines: Seq<Seq<char>>)
    requires
        extents_of(lines) is Err,
    ensures
        exists|i: int|
            0 <= i < lines.len() && extent_line(#[trigger] lines[i]) == Err::<
                ExtentView,
                error::Failure,
            >(extents_of(lines)->Err_0) && forall|j: int|
                0 <= j < i ==> extent_line(#[trigger] lines[j]) is Ok,
    decreases lines.len(),
{
    let front = lines.drop_last();
    if extents_of(front) is Err {
        lemma_first_of_bad_lines(front);
        let i = choose|i: int|
            0 <= i < front.len() && extent_line(#[trigger] front[i]) == Err::<
                ExtentView,
                error::Failure,
            >(extents_of(front)->Err_0) && forall|j: int|
                0 <= j < i ==> extent_line(#[trigger] front[j]) is Ok;
        assert(lines[i] == front[i]);
        assert forall|j: int| 0 <= j < i implies extent_line(#[trigger] lines[j]) is Ok by {
            assert(lines[j] == front[j]);
        }
    } else {
        lemma_extents_of(front);
        let i = lines.len() - 1;
        assert(lines[i] == lines.last());
        assert forall|j: int| 0 <= j < i implies extent_line(#[trigger] lines[j]) is Ok by {
            assert(lines[j] == front[j]);
            assert(extent_line(front[j]) == Ok::<ExtentView, error::Failure>(
                extents_of(front)->Ok_0[j],
            ));
        }
    }
}

/// One more line behind an accepted descriptor adds the extent that it describes, fails
/// where it cannot be read, and changes nothing where it describes none.
pub proof fn law_one_more_line(descriptor: Seq<char>, line: Seq<char>)
    requires
        described_extents(descriptor) is Ok,
        !line.contains('\n'),
    ensures
        ({
            let extents = described_extents(descriptor)->Ok_0;
            let t = text::trimmed(line);
            described_extents(descriptor + seq!['\n'] + line) == if t.len() > 0 && t[0] != '#'
                && is_extent_statement(t) {
                match extent_line(t) {
                    Ok(extent) => Ok::<Seq<ExtentView>, error::Failure>(extents.push(extent)),
                    Err(failure) => Err(failure),
                }
            } else {
                Ok(extents)
            }
        }),
{
    let longer = descriptor + seq!['\n'] + line;
    let t = text::trimmed(line);
    let lines = extent_statements(descriptor);
    law_accepted_descriptor(descriptor);
    law_supported_header(descriptor);
    law_statements_joined(descriptor, line);
    law_extent_statement_of_line(line);
    let all = statements(descriptor);
    let n = choose|n: int| decides_for(all, n);
    assert forall|i: int| 0 <= i < n implies #[trigger] statements(longer)[i] == all[i] by {}
    let v = choose|i: int|
        0 <= i < n && ruling(#[trigger] all[i]) == Ok::<Ruling, error::Failure>(Ruling::Version);
    let c = choose|i: int|
        0 <= i < n && ruling(#[trigger] all[i]) == Ok::<Ruling, error::Failure>(
            Ruling::CreateType,
        );
    assert(statements(longer)[v] == all[v]);
    assert(statements(longer)[c] == all[c]);
    assert(decides_for(statements(longer), n));
    law_supported_header(longer);
    if t.len() > 0 && t[0] != '#' && is_extent_statement(t) {
        assert((lines + seq![t]).drop_last() =~= lines);
    } else {
        assert(lines + Seq::<Seq<char>>::empty() =~= lines);
    }
}

proof fn lemma_statements_step(line: Seq<char>, lines: Seq<Seq<char>>)
    ensures
        ({
            let trim = |line: Seq<char>| text::trimmed(line);
            let says = |line: Seq<char>| is_statement(line);
            let rest = lines.map_values(trim).filter(says);
            (seq![line] + lines).map_values(trim).filter(says) == if is_statement(
                text::trimmed(line),
            ) {
                seq![text::trimmed(line)] + rest
            } else {
                rest
            }
        }),
{
    let trim = |line: Seq<char>| text::trimmed(line);
    let says = |line: Seq<char>| is_statement(line);
    let one = seq![text::trimmed(line)];
    assert((seq![line] + lines).map_values(trim) =~= one + lines.map_values(trim));
    Seq::filter_distributes_over_add(one, lines.map_values(trim), says);
    reveal_with_fuel(Seq::filter, 2);
    assert(one.drop_last() =~= Seq::empty());
    assert(Seq::<Seq<char>>::empty().filter(says) =~= Seq::empty());
    if is_statement(text::trimmed(line)) {
        assert(one.filter(says) =~= one);
    } else {
        assert(one.filter(says) =~= Seq::empty());
        assert(one.filter(says) + lines.map_values(trim).filter(says) =~= lines.map_values(
            trim,
        ).filter(says));
    }
}

/// Collects the statements of a descriptor.
fn statements_of(descriptor: &str) -> (found: Vec<&str>)
    ensures
        texts(found@) == statements(descriptor@),
{
    let mut found: Vec<&str> = Vec::new();
    let mut rest: &str = descriptor;
    loop
        invariant_except_break
            statements(descriptor@) == texts(found@) + statements(rest@),
        ensures
            texts(found@) == statements(descriptor@),
        decreases rest@.len(),
    {
        let split = split_at_first(rest, '\n');
        let ghost found_before = found@;
        let line = trim(
            match split {
                Some((line, _)) => line,
                None => rest,
            },
        );
        let chars = chars_of(line);
        if chars.len() > 0 && chars[0] != '#' {
            found.push(line);
            assert(texts(found@) =~= texts(found_before) + seq![line@]);
        }
        match split {
            Some((line, tail)) => {
                proof {
                    rest@.index_of_first_ensures('\n');
                    lemma_statements_step(line@, text::split_all(tail@, '\n'));
                    assert(texts(found@) + statements(tail@) =~= statements(descriptor@));
                }
                rest = tail;
            },
            None => {
                proof {
                    lemma_statements_step(rest@, Seq::empty());
                    let trim = |line: Seq<char>| text::trimmed(line);
                    let says = |line: Seq<char>| is_statement(line);
                    assert(Seq::<Seq<char>>::empty().map_values(trim) =~= Seq::empty());
                    reveal(Seq::filter);
                    assert(Seq::<Seq<char>>::empty().filter(says) =~= Seq::empty());
                    assert(seq![rest@] + Seq::<Seq<char>>::empty() =~= seq![rest@]);
                    assert(texts(found@) =~= statements(descriptor@));
                }
                break;
            },
        }
    }
    found
}

/// Takes the quotes off a value that has both.
pub fn strip_quotes(value: &str) -> (inner: &str)
    ensures
        inner@ == unquoted(value@),
{
    let chars = chars_of(value);
    let len: usize = chars.len();
    if len >= 2 && chars[0] == '"' && chars[len - 1] == '"' {
        value.substring_char(1, len - 1)
    } else {
        value
    }
}

/// Reads the number of a header value.
pub fn parse_u32(value: &str) -> (number: Result<u32, VmdkError>)
    ensures
        error::seen(number) == numeric_value(value@),
{
    match parse_number(strip_quotes(value), u32::MAX as u64) {
        Some(number) => Ok(number as u32),
        None => Err(invalid_data("invalid numeric value")),
    }
}

/// Tells what a statement says of the header.
fn rule(statement: &str) -> (said: Result<Ruling, VmdkError>)
    ensures
        error::seen(said) == ruling(statement@),
{
    let (key, value) = match split_at_first(statement, '=') {
        Some((key, value)) => (trim(key), trim(value)),
        None => return Ok(Ruling::Silent),
    };
    if same_text(key, "version") {
        match parse_u32(value) {
            Ok(version) => if 1 <= version && version <= 3 {
                Ok(Ruling::Version)
            } else {
                Ok(Ruling::Refused)
            },
            Err(error) => Err(error),
        }
    } else if same_text(key, "createType") {
        let create_type = strip_quotes(value);
        if same_text(create_type, "monolithicFlat") || same_text(
            create_type,
            "twoGbMaxExtentFlat",
        ) {
            Ok(Ruling::CreateType)
        } else {
            Ok(Ruling::Refused)
        }
    } else {
        Ok(Ruling::Silent)
    }
}

/// Whether the descriptor names a supported version and a supported type.
pub fn has_supported_descriptor_header(descriptor: &str) -> (supported: Result<bool, VmdkError>)
    ensures
        error::seen(supported) == supported_header(descriptor@),
{
    let lines = statements_of(descriptor);
    let mut has_version: bool = false;
    let mut has_type: bool = false;
    let mut i: usize = 0;
    assert(texts(lines@).skip(0) =~= texts(lines@));
    while i < lines.len()
        invariant
            i <= lines@.len(),
            !(has_version && has_type),
            supported_header(descriptor@) == header_verdict(
                texts(lines@).skip(i as int),
                has_version,
                has_type,
            ),
        decreases lines@.len() - i,
    {
        let ghost left = texts(lines@).skip(i as int);
        assert(left.drop_first() =~= texts(lines@).skip(i + 1));
        match rule(lines[i]) {
            Ok(Ruling::Silent) => {},
            Ok(Ruling::Version) => {
                has_version = true;
            },
            Ok(Ruling::CreateType) => {
                has_type = true;
            },
            Ok(Ruling::Refused) => {
                return Ok(false);
            },
            Err(error) => {
                return Err(error);
            },
        }
        assert(supported_header(descriptor@) == header_verdict(
            left.drop_first(),
            has_version,
            has_type,
        ));
        if has_version && has_type {
            return Ok(true);
        }
        i += 1;
    }
    Ok(false)
}

/// Tells the access that a word stands for.
fn access_of(word: &str) -> (access: Option<VmdkAccess>)
    ensures
        access == access_word(word@),
{
    if same_text(word, "RW") {
        Some(VmdkAccess::ReadWrite)
    } else if same_text(word, "RDONLY") {
        Some(VmdkAccess::ReadOnly)
    } else if same_text(word, "NOACCESS") {
        Some(VmdkAccess::NoAccess)
    } else {
        None
    }
}

/// A result with its storage and its error replaced by their views.
pub open spec fn seen_storage(result: Result<ParsedStorage, VmdkError>) -> Result<
    StorageView,
    error::Failure,
> {
    match result {
        Ok(storage) => Ok(storage@),
        Err(error) => Err(error@),
    }
}

/// A result with its extent and its error replaced by their views.
pub open spec fn seen_extent(result: Result<ParsedExtent, VmdkError>) -> Result<
    ExtentView,
    error::Failure,
> {
    match result {
        Ok(extent) => Ok(extent@),
        Err(error) => Err(error@),
    }
}

/// A result with its extents and its error replaced by their views.
pub open spec fn seen_extents(result: Result<Vec<ParsedExtent>, VmdkError>) -> Result<
    Seq<ExtentView>,
    error::Failure,
> {
    match result {
        Ok(extents) => Ok(extent_views(extents@)),
        Err(error) => Err(error@),
    }
}

/// Reads the storage of a `FLAT` extent.
fn parse_flat_storage(line: &str) -> (storage: Result<ParsedStorage, VmdkError>)
    ensures
        seen_storage(storage) == flat_storage(line@),
{
    let (before, rest) = match split_at_first(line, '"') {
        Some(split) => split,
        None => return Err(invalid_data("extent filename missing")),
    };
    let (name, after) = match split_at_first(rest, '"') {
        Some(split) => split,
        None => return Err(invalid_data("extent filename not terminated")),
    };
    if count_words(before) != 3 {
        return Err(invalid_data("extent filename appears at unexpected position"));
    }
    let offset: u64 = match split_word(after) {
        None => 0,
        Some((word, _)) => match parse_number(word, u64::MAX) {
            Some(number) => number,
            None => return Err(invalid_data("invalid extent offset")),
        },
    };
    Ok(ParsedStorage::Flat { filename: trim(name).to_owned(), offset })
}

/// Reads a line that describes an extent.
pub fn parse_extent_line(line: &str) -> (extent: Result<ParsedExtent, VmdkError>)
    ensures
        seen_extent(extent) == extent_line(line@),
{
    let (word, rest) = match split_word(line) {
        Some(split) => split,
        None => return Err(invalid_data("access type missing")),
    };
    let access = match access_of(word) {
        Some(access) => access,
        None => return Err(invalid_data("invalid access type")),
    };

    let (word, rest) = match split_word(rest) {
        Some(split) => split,
        None => return Err(invalid_data("sector count missing")),
    };
    let sectors: u64 = match parse_number(word, u64::MAX) {
        Some(sectors) => sectors,
        None => return Err(invalid_data("invalid sector count")),
    };

    if access == VmdkAccess::NoAccess {
        return Ok(ParsedExtent { access, sectors, storage: None });
    }
    let extent_type = match split_word(rest) {
        Some((word, _)) => word,
        None => return Err(invalid_data("extent type missing")),
    };
    if same_text(extent_type, "ZERO") {
        return Ok(ParsedExtent { access, sectors, storage: Some(ParsedStorage::Zero) });
    }
    if !same_text(extent_type, "FLAT") {
        let mut message = "unsupported VMDK extent type: ".to_owned();
        message.append(extent_type);
        return Err(VmdkError { kind: ErrorKind::Unsupported, message });
    }
    match parse_flat_storage(line) {
        Ok(storage) => Ok(ParsedExtent { access, sectors, storage: Some(storage) }),
        Err(error) => Err(error),
    }
}

/// A bad line decides the result whatever follows it.
proof fn lemma_first_bad_line(lines: Seq<Seq<char>>, more: Seq<Seq<char>>)
    requires
        extents_of(lines) is Err,
    ensures
        extents_of(lines + more) == extents_of(lines),
    decreases more.len(),
{
    if more.len() == 0 {
        assert(lines + more =~= lines);
    } else {
        lemma_first_bad_line(lines, more.drop_last());
        assert((lines + more).drop_last() =~= lines + more.drop_last());
    }
}

/// Reads the extents of a descriptor with a supported header.
pub fn parse_descriptor(descriptor: &str) -> (extents: Result<Vec<ParsedExtent>, VmdkError>)
    ensures
        seen_extents(extents) == described_extents(descriptor@),
{
    match has_supported_descriptor_header(descriptor) {
        Ok(true) => {},
        Ok(false) => {
            return Err(invalid_data("missing required VMDK header fields"));
        },
        Err(error) => {
            return Err(error);
        },
    }

    let lines = statements_of(descriptor);
    let mut extents: Vec<ParsedExtent> = Vec::new();
    let mut i: usize = 0;
    let ghost all = texts(lines@);
    let ghost is_extent = |statement: Seq<char>| is_extent_statement(statement);
    proof {
        reveal(Seq::filter);
        assert(all.take(0) =~= Seq::empty());
        assert(all.take(0).filter(is_extent) =~= Seq::empty());
        assert(extent_views(extents@) =~= Seq::empty());
    }
    while i < lines.len()
        invariant
            i <= lines@.len(),
            all == texts(lines@),
            all == statements(descriptor@),
            is_extent == (|statement: Seq<char>| is_extent_statement(statement)),
            supported_header(descriptor@) == Ok::<bool, error::Failure>(true),
            extents_of(all.take(i as int).filter(is_extent)) == Ok::<_, error::Failure>(
                extent_views(extents@),
            ),
        decreases lines@.len() - i,
    {
        let line = lines[i];
        proof {
            assert(all.take(i + 1) =~= all.take(i as int).push(line@));
            all.take(i as int).lemma_filter_push(line@, is_extent);
        }
        let describes = match before_white_space(line) {
            Some(word) => access_of(word).is_some(),
            None => false,
        };
        assert(describes == is_extent(line@));
        if describes {
            let ghost read = all.take(i as int).filter(is_extent);
            let ghost read_now = all.take(i + 1).filter(is_extent);
            assert(read_now == read.push(line@));
            assert(read_now.drop_last() =~= read);
            match parse_extent_line(line) {
                Ok(extent) => {
                    let ghost before = extents@;
                    extents.push(extent);
                    assert(extent_views(extents@) =~= extent_views(before).push(extent@));
                },
                Err(error) => {
                    proof {
                        let ahead = all.skip(i + 1);
                        assert(all =~= all.take(i + 1) + ahead);
                        Seq::filter_distributes_over_add(all.take(i + 1), ahead, is_extent);
                        lemma_first_bad_line(read_now, ahead.filter(is_extent));
                    }
                    return Err(error);
                },
            }
        }
        i += 1;
    }
    assert(all.take(i as int) =~= all);
    if extents.len() == 0 {
        return Err(invalid_data("VMDK descriptor does not contain extents"));
    }
    Ok(extents)
}

} // verus!
