//! Opening a disk: from a descriptor to extents with open files.
//!
//! The files are opened by the caller, one at a time. [`VmdkDiskSync::new`] and
//! [`DiskOpening::opened`] answer with what to do next: open a file and hand
//! over the number that it is to be known by, or why it cannot be opened; or use
//! the finished disk.

use crate::descriptor::{parse_descriptor, ParsedExtent, ParsedStorage, VmdkAccess};
use crate::disk::{ExtentStorage, VmdkDisk, VmdkExtent};
use crate::error::{
    classify_open_error, invalid_data, BlockError, BlockErrorKind, ErrorKind, ErrorOp, ErrorSource,
    VmdkError,
};
use crate::path::absolute_or_join;
use crate::sync::VmdkSync;
use crate::{descriptor, disk, error, path, sync};
use std::ops::Range;
use std::sync::Arc;
use vstd::prelude::*;
use vstd::utf8::*;

verus! {

/// The number of bytes in a sector.
pub const VMDK_SECTOR_SIZE: u64 = 512;

/// The byte `.`.
pub const DOT: u8 = 0x2e;

/// How to open a file. It is always opened for reading.
#[derive(Debug)]
pub struct OpenRequest {
    pub path: Vec<u8>,
    /// Whether to open the file for writing too.
    pub write: bool,
    /// Whether to pass the system's cache by.
    pub direct: bool,
}

/// The view of an [`OpenRequest`].
pub struct RequestView {
    pub path: Seq<u8>,
    pub write: bool,
    pub direct: bool,
}

impl View for OpenRequest {
    type V = RequestView;

    open spec fn view(&self) -> RequestView {
        RequestView { path: self.path@, write: self.write, direct: self.direct }
    }
}

/// A disk that waits for the file of its next extent.
#[derive(Debug)]
pub struct DiskOpening {
    base: Vec<u8>,
    readonly: bool,
    direct: bool,
    described: Vec<ParsedExtent>,
    next: usize,
    disk: VmdkDisk,
}

/// The view of a [`DiskOpening`].
pub struct OpeningView {
    /// The directory of the image.
    pub base: Seq<u8>,
    pub readonly: bool,
    pub direct: bool,
    /// The extents that the descriptor describes.
    pub described: Seq<descriptor::ExtentView>,
    /// Those of them that the disk has already.
    pub disk: Seq<VmdkExtent>,
}

impl View for DiskOpening {
    type V = OpeningView;

    closed spec fn view(&self) -> OpeningView {
        OpeningView {
            base: self.base@,
            readonly: self.readonly,
            direct: self.direct,
            described: descriptor::extent_views(self.described@),
            disk: self.disk@,
        }
    }
}

/// A disk that is open.
#[derive(Debug)]
pub struct VmdkDiskSync {
    disk: Arc<VmdkDisk>,
}

impl View for VmdkDiskSync {
    type V = Seq<VmdkExtent>;

    closed spec fn view(&self) -> Seq<VmdkExtent> {
        self.disk@
    }
}

/// What to do next to open a disk.
#[derive(Debug)]
pub enum OpenAction {
    /// Open a file, then go on with [`DiskOpening::opened`].
    Open { opening: DiskOpening, request: OpenRequest },
    /// Nothing: the disk is open.
    Done { disk: VmdkDiskSync },
}

/// The view of an [`OpenAction`].
pub enum ActionView {
    Open { opening: OpeningView, request: RequestView },
    Done { disk: Seq<VmdkExtent> },
}

impl View for OpenAction {
    type V = ActionView;

    open spec fn view(&self) -> ActionView {
        match *self {
            OpenAction::Open { opening, request } => ActionView::Open {
                opening: opening@,
                request: request@,
            },
            OpenAction::Done { disk } => ActionView::Done { disk: disk@ },
        }
    }
}

/// A result with its action and its error replaced by their views.
pub open spec fn seen_action(result: Result<OpenAction, BlockError>) -> Result<
    ActionView,
    error::BlockFailure,
> {
    match result {
        Ok(action) => Ok(action@),
        Err(error) => Err(error@),
    }
}

/// The number of bytes in an extent of `sectors` sectors behind `extents`, or
/// why there is no room for it.
pub open spec fn extent_size(extents: Seq<VmdkExtent>, sectors: u64) -> Result<
    u64,
    error::Failure,
> {
    if sectors * VMDK_SECTOR_SIZE > u64::MAX {
        Err(error::invalid_data_failure("extent size overflow"@))
    } else if disk::disk_size(extents) + sectors * VMDK_SECTOR_SIZE > u64::MAX {
        Err(error::invalid_data_failure("disk size overflow"@))
    } else {
        Ok((sectors * VMDK_SECTOR_SIZE) as u64)
    }
}

/// `extents` with one more of `size` bytes.
pub open spec fn extended(
    extents: Seq<VmdkExtent>,
    access: VmdkAccess,
    size: u64,
    storage: Option<ExtentStorage>,
) -> Seq<VmdkExtent> {
    extents.push(
        VmdkExtent {
            access,
            disk_range: Range {
                start: disk::disk_size(extents) as u64,
                end: (disk::disk_size(extents) + size) as u64,
            },
            storage,
        },
    )
}

/// How to open the file of a flat extent.
pub open spec fn request_for(
    opening: OpeningView,
    access: VmdkAccess,
    filename: Seq<char>,
) -> RequestView {
    RequestView {
        path: path::located(opening.base, encode_utf8(filename)),
        write: access == VmdkAccess::ReadWrite && !opening.readonly,
        direct: opening.direct,
    }
}

/// What to do next. Extents that need no file are added up to the first that
/// needs one.
pub open spec fn next_action(opening: OpeningView) -> Result<ActionView, error::BlockFailure>
    decreases opening.described.len() - opening.disk.len(),
{
    if opening.disk.len() >= opening.described.len() {
        Ok(ActionView::Done { disk: opening.disk })
    } else {
        let extent = opening.described[opening.disk.len() as int];
        match extent_size(opening.disk, extent.sectors) {
            Err(failure) => Err(error::open_failure(failure)),
            Ok(size) => match extent.storage {
                Some(descriptor::StorageView::Flat { filename, .. }) => Ok(
                    ActionView::Open {
                        opening,
                        request: request_for(opening, extent.access, filename),
                    },
                ),
                Some(descriptor::StorageView::Zero) => next_action(
                    OpeningView {
                        disk: extended(
                            opening.disk,
                            extent.access,
                            size,
                            Some(ExtentStorage::Zero),
                        ),
                        ..opening
                    },
                ),
                None => next_action(
                    OpeningView {
                        disk: extended(opening.disk, extent.access, size, None),
                        ..opening
                    },
                ),
            },
        }
    }
}

/// What to do after the file of the next extent was opened as number `file`, or
/// could not be opened.
pub open spec fn action_after_open(
    opening: OpeningView,
    file: Result<usize, error::Failure>,
) -> Result<ActionView, error::BlockFailure> {
    let extent = opening.described[opening.disk.len() as int];
    let offset = extent.storage->0->Flat_offset;
    match file {
        Err(failure) => Err(error::open_failure(failure)),
        Ok(file) => if offset * VMDK_SECTOR_SIZE > u64::MAX {
            Err(error::open_failure(error::invalid_data_failure("extent offset overflow"@)))
        } else {
            next_action(
                OpeningView {
                    disk: extended(
                        opening.disk,
                        extent.access,
                        (extent.sectors * VMDK_SECTOR_SIZE) as u64,
                        Some(
                            ExtentStorage::Flat {
                                file,
                                offset: (offset * VMDK_SECTOR_SIZE) as u64,
                            },
                        ),
                    ),
                    ..opening
                },
            )
        },
    }
}

/// What to do first to open the disk that a descriptor describes.
pub open spec fn first_action(
    descriptor: Result<Seq<char>, error::Failure>,
    base: Seq<u8>,
    readonly: bool,
    direct: bool,
) -> Result<ActionView, error::BlockFailure> {
    match descriptor {
        Err(failure) => Err(error::open_failure(failure)),
        Ok(text) => match descriptor::described_extents(text) {
            Err(failure) => Err(error::open_failure(failure)),
            Ok(described) => next_action(
                OpeningView { base, readonly, direct, described, disk: Seq::empty() },
            ),
        },
    }
}

/// The directory that relative names start from.
pub open spec fn base_directory(parent: Option<Seq<u8>>) -> Seq<u8> {
    match parent {
        Some(directory) => directory,
        None => seq![DOT],
    }
}

/// Whether an extent of the disk is what the descriptor describes.
pub open spec fn realizes(extent: VmdkExtent, described: descriptor::ExtentView) -> bool {
    &&& extent.access == described.access
    &&& extent.disk_range.end - extent.disk_range.start == described.sectors * VMDK_SECTOR_SIZE
    &&& match described.storage {
        Some(descriptor::StorageView::Flat { offset, .. }) => {
            extent.storage matches Some(ExtentStorage::Flat { offset: byte, .. }) && byte == offset
                * VMDK_SECTOR_SIZE
        },
        Some(descriptor::StorageView::Zero) => extent.storage == Some(ExtentStorage::Zero),
        None => extent.storage is None,
    }
}

/// Whether extents are, one for one, what the descriptor describes, laid end to
/// end.
pub open spec fn laid_out(
    extents: Seq<VmdkExtent>,
    described: Seq<descriptor::ExtentView>,
) -> bool {
    &&& extents.len() == described.len()
    &&& disk::end_to_end(extents)
    &&& forall|i: int|
        0 <= i < extents.len() ==> realizes(#[trigger] extents[i], described[i])
}

/// Whether the opening waits for the file of a flat extent that has room, and
/// the disk so far is what the descriptor describes.
pub open spec fn waits_for_file(opening: OpeningView) -> bool {
    let extent = opening.described[opening.disk.len() as int];
    &&& opening.disk.len() < opening.described.len()
    &&& extent.storage is Some
    &&& extent.storage->0 is Flat
    &&& extent_size(opening.disk, extent.sectors) is Ok
    &&& laid_out(opening.disk, opening.described.take(opening.disk.len() as int))
}

proof fn lemma_laid_out_extended(
    extents: Seq<VmdkExtent>,
    described: Seq<descriptor::ExtentView>,
    access: VmdkAccess,
    size: u64,
    storage: Option<ExtentStorage>,
)
    requires
        extents.len() < described.len(),
        laid_out(extents, described.take(extents.len() as int)),
        disk::disk_size(extents) + size <= u64::MAX,
        access == described[extents.len() as int].access,
        size == described[extents.len() as int].sectors * VMDK_SECTOR_SIZE,
        match described[extents.len() as int].storage {
            Some(descriptor::StorageView::Flat { offset, .. }) => {
                storage matches Some(ExtentStorage::Flat { offset: byte, .. }) && byte == offset
                    * VMDK_SECTOR_SIZE
            },
            Some(descriptor::StorageView::Zero) => storage == Some(ExtentStorage::Zero),
            None => storage is None,
        },
    ensures
        laid_out(
            extended(extents, access, size, storage),
            described.take(extents.len() as int + 1),
        ),
{
    let n = extents.len() as int;
    let more = extended(extents, access, size, storage);
    if n > 0 {
        assert(disk::in_place(extents, n - 1));
    }
    assert forall|i: int| 0 <= i < more.len() implies #[trigger] disk::in_place(more, i) by {
        assert(more.take(i) =~= extents.take(i));
        if i < n {
            assert(disk::in_place(extents, i));
        } else {
            assert(extents.take(i) =~= extents);
        }
    }
    assert forall|i: int| 0 <= i < more.len() implies realizes(
        #[trigger] more[i],
        described.take(n + 1)[i],
    ) by {
        if i < n {
            assert(realizes(extents[i], described.take(n)[i]));
        }
    }
}

/// The number of sectors in described extents.
pub open spec fn total_sectors(described: Seq<descriptor::ExtentView>) -> int
    decreases described.len(),
{
    if described.len() == 0 {
        0
    } else {
        total_sectors(described.drop_last()) + described.last().sectors
    }
}

/// A disk is as large as the sectors that its descriptor describes.
pub proof fn law_disk_size_is_described(
    extents: Seq<VmdkExtent>,
    described: Seq<descriptor::ExtentView>,
)
    requires
        laid_out(extents, described),
    ensures
        disk::disk_size(extents) == total_sectors(described) * VMDK_SECTOR_SIZE,
    decreases extents.len(),
{
    if extents.len() > 0 {
        let n = extents.len() - 1;
        let front = extents.take(n);
        assert(disk::in_place(extents, n));
        assert forall|i: int| 0 <= i < front.len() implies #[trigger] disk::in_place(front, i) by {
            assert(disk::in_place(extents, i));
            assert(front.take(i) =~= extents.take(i));
        }
        assert forall|i: int| 0 <= i < front.len() implies realizes(
            #[trigger] front[i],
            described.drop_last()[i],
        ) by {
            assert(realizes(extents[i], described[i]));
        }
        law_disk_size_is_described(front, described.drop_last());
        assert(realizes(extents[n], described[n]));
    }
}

/// Whether an extent keeps its sectors in a file.
pub open spec fn is_flat(extent: descriptor::ExtentView) -> bool {
    extent.storage matches Some(storage) && storage is Flat
}

/// The file that is asked for next is that of the first flat extent that the disk
/// does not have yet, found from the directory of the image. It is opened for
/// writing if and only if its extent is writable and the disk is not opened to be
/// read only, and without the cache if and only if the disk is.
pub proof fn law_files_opened_as_asked(opening: OpeningView)
    ensures
        next_action(opening) matches Ok(ActionView::Open { opening: waiting, request }) ==> {
            &&& opening.disk.len() <= waiting.disk.len() < waiting.described.len()
            &&& waiting == (OpeningView { disk: waiting.disk, ..opening })
            &&& opening.disk == waiting.disk.take(opening.disk.len() as int)
            &&& forall|i: int|
                opening.disk.len() <= i < waiting.disk.len() ==> !is_flat(
                    #[trigger] opening.described[i],
                )
            &&& is_flat(opening.described[waiting.disk.len() as int])
            &&& request.path == path::located(
                opening.base,
                encode_utf8(
                    opening.described[waiting.disk.len() as int].storage->0->Flat_filename,
                ),
            )
            &&& request.write == (!opening.readonly
                && opening.described[waiting.disk.len() as int].access == VmdkAccess::ReadWrite)
            &&& request.direct == opening.direct
        },
    decreases opening.described.len() - opening.disk.len(),
{
    if opening.disk.len() < opening.described.len() {
        let extent = opening.described[opening.disk.len() as int];
        if let Ok(size) = extent_size(opening.disk, extent.sectors) {
            match extent.storage {
                Some(descriptor::StorageView::Flat { .. }) => {},
                Some(descriptor::StorageView::Zero) => {
                    law_files_opened_as_asked(
                        OpeningView {
                            disk: extended(
                                opening.disk,
                                extent.access,
                                size,
                                Some(ExtentStorage::Zero),
                            ),
                            ..opening
                        },
                    );
                },
                None => {
                    law_files_opened_as_asked(
                        OpeningView {
                            disk: extended(opening.disk, extent.access, size, None),
                            ..opening
                        },
                    );
                },
            }
        }
    }
}

/// The extents of the disk that an action has or waits with.
pub open spec fn extents_in(action: ActionView) -> Seq<VmdkExtent> {
    match action {
        ActionView::Open { opening, .. } => opening.disk,
        ActionView::Done { disk } => disk,
    }
}

/// Until a file is needed, the extents of the descriptor are added in order and one for
/// one. Each is accessed as described, starts where the one in front of it ends, has 512
/// bytes for each of its sectors, and keeps nothing.
pub proof fn law_extents_added(opening: OpeningView, i: int)
    requires
        opening.disk.len() <= opening.described.len(),
        next_action(opening) is Ok,
        opening.disk.len() <= i < extents_in(next_action(opening)->Ok_0).len(),
    ensures
        ({
            let extents = extents_in(next_action(opening)->Ok_0);
            let extent = extents[i];
            let described = opening.described[i];
            &&& extents.len() <= opening.described.len()
            &&& extents.take(opening.disk.len() as int) == opening.disk
            &&& extent.access == described.access
            &&& extent.disk_range.start == if i == 0 {
                0
            } else {
                extents[i - 1].disk_range.end
            }
            &&& extent.disk_range.end == extent.disk_range.start + 512 * described.sectors
            &&& described.storage is None ==> extent.storage is None
            &&& described.storage == Some(descriptor::StorageView::Zero) ==> extent.storage == Some(
                ExtentStorage::Zero,
            )
            &&& !is_flat(described)
        }),
    decreases opening.described.len() - opening.disk.len(),
{
    if opening.disk.len() < opening.described.len() {
        let extent = opening.described[opening.disk.len() as int];
        if let Ok(size) = extent_size(opening.disk, extent.sectors) {
            if !is_flat(extent) {
                let storage = if extent.storage is None {
                    None
                } else {
                    Some(ExtentStorage::Zero)
                };
                let grown = extended(opening.disk, extent.access, size, storage);
                let next = OpeningView { disk: grown, ..opening };
                assert(next_action(opening) == next_action(next));
                let extents = extents_in(next_action(opening)->Ok_0);
                law_extents_kept(next);
                assert(extents.take(grown.len() as int) == grown);
                assert(grown.take(opening.disk.len() as int) =~= opening.disk);
                assert(extents.take(opening.disk.len() as int) =~= grown.take(
                    opening.disk.len() as int,
                ));
                if i > opening.disk.len() {
                    law_extents_added(next, i);
                } else {
                    assert(extents[i] == extents.take(grown.len() as int)[i]);
                    if i > 0 {
                        assert(extents[i - 1] == extents.take(grown.len() as int)[i - 1]);
                    }
                }
            }
        }
    }
}

/// The extents that the disk has already stay as they are and where they are.
pub proof fn law_extents_kept(opening: OpeningView)
    requires
        opening.disk.len() <= opening.described.len(),
    ensures
        next_action(opening) matches Ok(action) ==> {
            &&& opening.disk.len() <= extents_in(action).len() <= opening.described.len()
            &&& extents_in(action).take(opening.disk.len() as int) == opening.disk
        },
    decreases opening.described.len() - opening.disk.len(),
{
    assert(opening.disk.take(opening.disk.len() as int) =~= opening.disk);
    if opening.disk.len() < opening.described.len() {
        let extent = opening.described[opening.disk.len() as int];
        if let Ok(size) = extent_size(opening.disk, extent.sectors) {
            if !is_flat(extent) {
                let storage = if extent.storage is None {
                    None
                } else {
                    Some(ExtentStorage::Zero)
                };
                let grown = extended(opening.disk, extent.access, size, storage);
                let next = OpeningView { disk: grown, ..opening };
                assert(next_action(opening) == next_action(next));
                law_extents_kept(next);
                if let Ok(action) = next_action(next) {
                    assert(extents_in(action).take(opening.disk.len() as int) =~= grown.take(
                        opening.disk.len() as int,
                    )) by {
                        assert(extents_in(action).take(grown.len() as int) == grown);
                        assert(extents_in(action).take(opening.disk.len() as int) =~= extents_in(
                            action,
                        ).take(grown.len() as int).take(opening.disk.len() as int));
                    }
                    assert(grown.take(opening.disk.len() as int) =~= opening.disk);
                }
            }
        }
    }
}

proof fn lemma_total_sectors(described: Seq<descriptor::ExtentView>)
    requires
        described.len() > 0,
    ensures
        total_sectors(described) == described[0].sectors + total_sectors(described.drop_first()),
        total_sectors(described.drop_first()) >= 0,
    decreases described.len(),
{
    let rest = described.drop_first();
    if described.len() == 1 {
        assert(described.drop_last() =~= Seq::empty());
        assert(rest =~= Seq::empty());
    } else {
        lemma_total_sectors(described.drop_last());
        assert(rest.drop_last() =~= described.drop_last().drop_first());
        assert(rest.last() == described.last());
    }
}

/// Opening goes on, whatever the extents are, as long as the disk has at most 2^64 - 1
/// bytes. It asks for a file if and only if one of the extents that are left is kept in a
/// file, and is otherwise done with all of them.
pub proof fn law_opening_goes_on(opening: OpeningView)
    requires
        opening.disk.len() <= opening.described.len(),
        disk::disk_size(opening.disk) + 512 * total_sectors(
            opening.described.skip(opening.disk.len() as int),
        ) <= u64::MAX,
    ensures
        next_action(opening) is Ok,
        next_action(opening)->Ok_0 is Open <==> exists|i: int|
            opening.disk.len() <= i < opening.described.len() && is_flat(
                #[trigger] opening.described[i],
            ),
        next_action(opening)->Ok_0 is Done ==> extents_in(next_action(opening)->Ok_0).len()
            == opening.described.len(),
    decreases opening.described.len() - opening.disk.len(),
{
    let n = opening.disk.len() as int;
    if n < opening.described.len() {
        let left = opening.described.skip(n);
        let extent = opening.described[n];
        assert(left[0] == extent);
        lemma_total_sectors(left);
        assert(left.drop_first() =~= opening.described.skip(n + 1));
        if is_flat(extent) {
            assert(is_flat(opening.described[n]));
        } else {
            let size = (512 * extent.sectors) as u64;
            let storage = if extent.storage is None {
                None
            } else {
                Some(ExtentStorage::Zero)
            };
            let grown = extended(opening.disk, extent.access, size, storage);
            let next = OpeningView { disk: grown, ..opening };
            assert(next_action(opening) == next_action(next));
            law_opening_goes_on(next);
        }
    }
}

/// Opening fails by itself only of an extent that it gets to without a file, where that
/// extent, or the disk with it, would have more than 2^64 - 1 bytes, and says which.
pub proof fn law_opening_fails(opening: OpeningView) -> (i: int)
    requires
        opening.disk.len() <= opening.described.len(),
        next_action(opening) is Err,
    ensures
        opening.disk.len() <= i < opening.described.len(),
        forall|j: int|
            opening.disk.len() <= j < i ==> !is_flat(#[trigger] opening.described[j]),
        disk::disk_size(opening.disk) + 512 * total_sectors(
            opening.described.subrange(opening.disk.len() as int, i + 1),
        ) > u64::MAX,
        next_action(opening) == Err::<ActionView, error::BlockFailure>(
            error::BlockFailure {
                kind: BlockErrorKind::InvalidFormat,
                op: Some(ErrorOp::Open),
                source: error::FailureSource::Io(
                    error::Failure {
                        kind: ErrorKind::InvalidData,
                        message: if 512 * opening.described[i].sectors > u64::MAX {
                            "extent size overflow"@
                        } else {
                            "disk size overflow"@
                        },
                    },
                ),
            },
        ),
    decreases opening.described.len() - opening.disk.len(),
{
    let n = opening.disk.len() as int;
    let extent = opening.described[n];
    match extent_size(opening.disk, extent.sectors) {
        Err(_) => {
            let one = opening.described.subrange(n, n + 1);
            assert(one[0] == extent);
            assert(one.drop_first() =~= Seq::empty());
            lemma_total_sectors(one);
            n
        },
        Ok(size) => {
            let storage = if extent.storage is None {
                None
            } else {
                Some(ExtentStorage::Zero)
            };
            let grown = extended(opening.disk, extent.access, size, storage);
            let next = OpeningView { disk: grown, ..opening };
            assert(next_action(opening) == next_action(next));
            let i = law_opening_fails(next);
            let reached = opening.described.subrange(n, i + 1);
            assert(reached[0] == extent);
            assert(reached.drop_first() =~= opening.described.subrange(n + 1, i + 1));
            lemma_total_sectors(reached);
            i
        },
    }
}

/// Once its file is open, the extent that waited is added: accessed as described, behind
/// the extents so far, with 512 bytes for each of its sectors, kept in that file from the
/// described sector on. Then opening goes on. It fails where the file could not be opened,
/// for the file's reason, and where that sector has no position in a file.
pub proof fn law_file_opened(opening: OpeningView, file: Result<usize, error::Failure>)
    requires
        waits_for_file(opening),
    ensures
        ({
            let extent = opening.described[opening.disk.len() as int];
            let sector = extent.storage->0->Flat_offset;
            let size = disk::disk_size(opening.disk);
            match file {
                Err(failure) => action_after_open(opening, file) == Err::<
                    ActionView,
                    error::BlockFailure,
                >(error::open_failure(failure)),
                Ok(number) => if 512 * sector > u64::MAX {
                    action_after_open(opening, file) == Err::<ActionView, error::BlockFailure>(
                        error::BlockFailure {
                            kind: BlockErrorKind::InvalidFormat,
                            op: Some(ErrorOp::Open),
                            source: error::FailureSource::Io(
                                error::Failure {
                                    kind: ErrorKind::InvalidData,
                                    message: "extent offset overflow"@,
                                },
                            ),
                        },
                    )
                } else {
                    &&& size + 512 * extent.sectors <= u64::MAX
                    &&& action_after_open(opening, file) == next_action(
                        OpeningView {
                            disk: opening.disk.push(
                                VmdkExtent {
                                    access: extent.access,
                                    disk_range: Range {
                                        start: size as u64,
                                        end: (size + 512 * extent.sectors) as u64,
                                    },
                                    storage: Some(
                                        ExtentStorage::Flat {
                                            file: number,
                                            offset: (512 * sector) as u64,
                                        },
                                    ),
                                },
                            ),
                            ..opening
                        },
                    )
                },
            }
        }),
{
}

/// A disk is opened from its first extent on, with the extents that its descriptor
/// describes, from the image's directory or the current one, and as the caller asks. It
/// fails as reading or accepting the descriptor failed.
pub proof fn law_opening_starts(
    text: Seq<char>,
    failure: error::Failure,
    parent: Option<Seq<u8>>,
    readonly: bool,
    direct: bool,
)
    ensures
        base_directory(parent) == (match parent {
            Some(directory) => directory,
            None => seq![0x2eu8],
        }),
        first_action(Err(failure), base_directory(parent), readonly, direct) == Err::<
            ActionView,
            error::BlockFailure,
        >(error::open_failure(failure)),
        first_action(Ok(text), base_directory(parent), readonly, direct) == (
        match descriptor::described_extents(text) {
            Ok(described) => next_action(
                OpeningView {
                    base: base_directory(parent),
                    readonly,
                    direct,
                    described,
                    disk: Seq::empty(),
                },
            ),
            Err(failure) => Err(error::open_failure(failure)),
        }),
{
}

impl DiskOpening {
    #[verifier::type_invariant]
    closed spec fn valid(self) -> bool {
        &&& self.next == self.disk@.len()
        &&& waits_for_file(self@)
    }

    /// Adds extents up to the first that needs a file.
    fn advance(
        base: Vec<u8>,
        readonly: bool,
        direct: bool,
        described: Vec<ParsedExtent>,
        disk: VmdkDisk,
        next: usize,
    ) -> (action: Result<OpenAction, BlockError>)
        requires
            next == disk@.len(),
            next <= described@.len(),
            laid_out(disk@, descriptor::extent_views(described@).take(next as int)),
        ensures
            seen_action(action) == next_action(
                OpeningView {
                    base: base@,
                    readonly,
                    direct,
                    described: descriptor::extent_views(described@),
                    disk: disk@,
                },
            ),
            action matches Ok(OpenAction::Open { opening, .. }) ==> waits_for_file(opening@),
            action matches Ok(OpenAction::Done { disk: done }) ==> laid_out(
                done@,
                descriptor::extent_views(described@),
            ),
    {
        let ghost views = descriptor::extent_views(described@);
        let ghost first = OpeningView {
            base: base@,
            readonly,
            direct,
            described: views,
            disk: disk@,
        };
        let mut built = disk;
        let mut at: usize = next;
        while at < described.len()
            invariant
                views == descriptor::extent_views(described@),
                first == (OpeningView {
                    base: base@,
                    readonly,
                    direct,
                    described: views,
                    disk: disk@,
                }),
                at == built@.len(),
                at <= described@.len(),
                laid_out(built@, views.take(at as int)),
                next_action(first) == next_action(
                    OpeningView { base: base@, readonly, direct, described: views, disk: built@ },
                ),
            decreases described@.len() - at,
        {
            let ghost opening = OpeningView {
                base: base@,
                readonly,
                direct,
                described: views,
                disk: built@,
            };
            assert(views[at as int] == described@[at as int]@);
            let extent = &described[at];
            let size: u64 = match extent.sectors.checked_mul(VMDK_SECTOR_SIZE) {
                Some(size) => size,
                None => {
                    return Err(
                        classify_open_error(invalid_data("extent size overflow")).with_op(
                            ErrorOp::Open,
                        ),
                    );
                },
            };
            if built.virtual_size().checked_add(size).is_none() {
                return Err(
                    classify_open_error(invalid_data("disk size overflow")).with_op(ErrorOp::Open),
                );
            }
            let storage = match &extent.storage {
                Some(ParsedStorage::Flat { filename, .. }) => {
                    let request = OpenRequest {
                        path: absolute_or_join(base.as_slice(), filename.as_str()),
                        write: extent.access == VmdkAccess::ReadWrite && !readonly,
                        direct,
                    };
                    let next: usize = at;
                    let disk = built;
                    let opening = DiskOpening { base, readonly, direct, described, next, disk };
                    return Ok(OpenAction::Open { opening, request });
                },
                Some(ParsedStorage::Zero) => Some(ExtentStorage::Zero),
                None => None,
            };
            proof {
                lemma_laid_out_extended(built@, views, extent.access, size, storage);
            }
            built = built.with_extent(extent.access, size, storage);
            at += 1;
        }
        assert(views.take(at as int) =~= views);
        Ok(OpenAction::Done { disk: VmdkDiskSync { disk: Arc::new(built) } })
    }

    /// Goes on after the requested file was opened as number `file`, or could
    /// not be opened.
    pub fn opened(self, file: Result<usize, VmdkError>) -> (action: Result<OpenAction, BlockError>)
        ensures
            waits_for_file(self@),
            seen_action(action) == action_after_open(self@, error::seen(file)),
            action matches Ok(OpenAction::Open { opening, .. }) ==> waits_for_file(opening@),
            action matches Ok(OpenAction::Done { disk }) ==> laid_out(disk@, self@.described),
    {
        proof {
            use_type_invariant(&self);
        }
        let file: usize = match file {
            Ok(file) => file,
            Err(error) => {
                return Err(classify_open_error(error).with_op(ErrorOp::Open));
            },
        };
        let DiskOpening { base, readonly, direct, described, next, disk } = self;
        let ghost views = descriptor::extent_views(described@);
        assert(next < described.len());
        assert(views[next as int] == described@[next as int]@);
        let access = described[next].access;
        let size: u64 = described[next].sectors * VMDK_SECTOR_SIZE;
        let sector: u64 = match &described[next].storage {
            Some(ParsedStorage::Flat { offset, .. }) => *offset,
            _ => 0,
        };
        let offset: u64 = match sector.checked_mul(VMDK_SECTOR_SIZE) {
            Some(offset) => offset,
            None => {
                return Err(
                    classify_open_error(invalid_data("extent offset overflow")).with_op(
                        ErrorOp::Open,
                    ),
                );
            },
        };
        let storage = Some(ExtentStorage::Flat { file, offset });
        proof {
            lemma_laid_out_extended(disk@, views, access, size, storage);
        }
        let disk = disk.with_extent(access, size, storage);
        DiskOpening::advance(base, readonly, direct, described, disk, next + 1)
    }
}

impl VmdkDiskSync {
    /// Starts to open the disk of the image in the directory `parent`, given
    /// what came of reading its descriptor.
    pub fn new(
        descriptor: Result<String, VmdkError>,
        parent: Option<Vec<u8>>,
        readonly: bool,
        direct: bool,
    ) -> (action: Result<OpenAction, BlockError>)
        ensures
            seen_action(action) == first_action(
                crate::raw::seen_text(descriptor),
                base_directory(
                    match parent {
                        Some(directory) => Some(directory@),
                        None => None,
                    },
                ),
                readonly,
                direct,
            ),
            action matches Ok(OpenAction::Open { opening, .. }) ==> waits_for_file(opening@),
            action matches Ok(OpenAction::Done { disk }) ==> laid_out(
                disk@,
                descriptor::described_extents(descriptor->Ok_0@)->Ok_0,
            ),
    {
        let text = match descriptor {
            Ok(text) => text,
            Err(error) => {
                return Err(classify_open_error(error).with_op(ErrorOp::Open));
            },
        };
        let described = match parse_descriptor(text.as_str()) {
            Ok(described) => described,
            Err(error) => {
                return Err(classify_open_error(error).with_op(ErrorOp::Open));
            },
        };
        let base = match parent {
            Some(directory) => directory,
            None => vec![DOT],
        };
        assert(base@ =~= base_directory(
            match parent {
                Some(directory) => Some(directory@),
                None => None,
            },
        ));
        DiskOpening::advance(base, readonly, direct, described, VmdkDisk::empty(), 0)
    }

    /// The disk itself.
    pub fn disk(&self) -> (disk: &VmdkDisk)
        ensures
            disk@ == self@,
    {
        &self.disk
    }

    /// The number of bytes on the disk.
    pub fn logical_size(&self) -> (size: u64)
        ensures
            size == disk::disk_size(self@),
            disk::end_to_end(self@),
    {
        self.disk.virtual_size()
    }

    /// Reports the space that the disk's files take up, given what came of
    /// measuring it.
    pub fn physical_size(&self, measured: Result<u64, VmdkError>) -> (size: Result<u64, BlockError>)
        ensures
            match measured {
                Ok(bytes) => size == Ok::<u64, BlockError>(bytes),
                Err(error) => size matches Err(failed) && failed@ == (error::BlockFailure {
                    kind: BlockErrorKind::Io,
                    op: None,
                    source: error::FailureSource::Io(error@),
                }),
            },
    {
        match measured {
            Ok(bytes) => Ok(bytes),
            Err(error) => Err(BlockError::new(BlockErrorKind::Io, ErrorSource::Io(error))),
        }
    }

    /// Another handle on the same disk.
    pub fn try_clone(&self) -> (other: VmdkDiskSync)
        ensures
            other@ == self@,
    {
        VmdkDiskSync { disk: self.disk.clone() }
    }

    /// Makes a queue for requests to the disk.
    pub fn create_async_io(&self, _ring_depth: u32) -> (queue: VmdkSync)
        ensures
            queue@ == (sync::QueueView { disk: self@, completed: Seq::empty() }),
    {
        VmdkSync::new(self.disk.clone())
    }

    /// Refuses to change the size of the disk.
    pub fn resize(&mut self, _size: u64) -> (refusal: Result<(), BlockError>)
        ensures
            final(self)@ == old(self)@,
            refusal matches Err(error) && error@ == (error::BlockFailure {
                kind: BlockErrorKind::UnsupportedFeature,
                op: Some(ErrorOp::Resize),
                source: error::FailureSource::Resize(
                    error::Failure {
                        kind: ErrorKind::Other,
                        message: "resize not supported for VMDK"@,
                    },
                ),
            }),
    {
        let error = VmdkError::new(ErrorKind::Other, "resize not supported for VMDK");
        Err(
            BlockError::new(
                BlockErrorKind::UnsupportedFeature,
                ErrorSource::Resize(error),
            ).with_op(ErrorOp::Resize),
        )
    }
}

} // verus!
