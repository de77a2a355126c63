//! The disk: extents laid end to end, and the transfers that a request needs.
//!
//! A disk keeps no data. A request is turned into a plan, the list of transfers
//! between a buffer and the extents' files; whoever owns the files carries it
//! out. Files are known by the numbers that their owner gave them.

use crate::descriptor::VmdkAccess;
use crate::error;
use crate::error::{invalid_data, ErrorKind, VmdkError};
use std::ops::Range;
use vstd::prelude::*;

verus! {

/// Where the bytes of an extent are kept.
#[derive(Clone, Copy, Debug, PartialEq, Eq, Structural)]
pub enum ExtentStorage {
    /// In a file, from a byte on.
    Flat { file: usize, offset: u64 },
    /// Nowhere: they are zero.
    Zero,
}

/// A part of the disk.
#[derive(Debug)]
pub struct VmdkExtent {
    pub access: VmdkAccess,
    /// The bytes of the disk that the extent holds.
    pub disk_range: Range<u64>,
    pub storage: Option<ExtentStorage>,
}

/// Whether the extent holds the byte of the disk at `offset`.
pub open spec fn holds(extent: VmdkExtent, offset: int) -> bool {
    extent.disk_range.start <= offset < extent.disk_range.end
}

/// The number of bytes in a disk of these extents.
pub open spec fn disk_size(extents: Seq<VmdkExtent>) -> int {
    if extents.len() == 0 {
        0
    } else {
        extents.last().disk_range.end as int
    }
}

/// Whether the extent starts where those in front of it end.
pub open spec fn in_place(extents: Seq<VmdkExtent>, i: int) -> bool {
    &&& extents[i].disk_range.start == disk_size(extents.take(i))
    &&& extents[i].disk_range.start <= extents[i].disk_range.end
}

/// Whether the extents cover a disk from its first byte, without gaps and
/// without overlap. An extent may be empty.
pub open spec fn end_to_end(extents: Seq<VmdkExtent>) -> bool {
    forall|i: int| 0 <= i < extents.len() ==> #[trigger] in_place(extents, i)
}

/// Whether extent `i` is the one that holds the byte at `offset`.
pub open spec fn is_extent_at(extents: Seq<VmdkExtent>, offset: int, i: int) -> bool {
    0 <= i < extents.len() && holds(extents[i], offset)
}

/// The index of the extent that holds the byte at `offset`.
pub open spec fn extent_index(extents: Seq<VmdkExtent>, offset: int) -> int {
    choose|i: int| is_extent_at(extents, offset, i)
}

/// Extents that lie end to end come in the order of the disk.
pub proof fn lemma_extents_ordered(extents: Seq<VmdkExtent>, i: int, j: int)
    requires
        end_to_end(extents),
        0 <= i < j < extents.len(),
    ensures
        extents[i].disk_range.end <= extents[j].disk_range.start,
    decreases j,
{
    assert(in_place(extents, j));
    assert(extents.take(j).last() == extents[j - 1]);
    if i < j - 1 {
        lemma_extents_ordered(extents, i, j - 1);
        assert(in_place(extents, j - 1));
    }
}

/// At most one extent holds a byte of the disk.
pub proof fn lemma_extent_unique(extents: Seq<VmdkExtent>, offset: int, i: int)
    requires
        end_to_end(extents),
        is_extent_at(extents, offset, i),
    ensures
        extent_index(extents, offset) == i,
{
    let j = extent_index(extents, offset);
    assert(is_extent_at(extents, offset, j));
    if i < j {
        lemma_extents_ordered(extents, i, j);
    } else if j < i {
        lemma_extents_ordered(extents, j, i);
    }
}

/// Every byte of the disk is held by an extent, and no other byte is.
pub proof fn lemma_extents_cover(extents: Seq<VmdkExtent>, offset: int)
    requires
        end_to_end(extents),
        0 <= offset,
    ensures
        offset < disk_size(extents) <==> is_extent_at(
            extents,
            offset,
            extent_index(extents, offset),
        ),
    decreases extents.len(),
{
    if extents.len() > 0 {
        let n = extents.len() - 1;
        let front = extents.take(n);
        assert(in_place(extents, n));
        assert forall|i: int| 0 <= i < front.len() implies #[trigger] in_place(front, i) by {
            assert(in_place(extents, i));
            assert(front.take(i) =~= extents.take(i));
        }
        lemma_extents_cover(front, offset);
        if offset < disk_size(front) {
            assert(is_extent_at(extents, offset, extent_index(front, offset)));
        } else if offset < disk_size(extents) {
            assert(is_extent_at(extents, offset, n));
        }
        let i = extent_index(extents, offset);
        if is_extent_at(extents, offset, i) && i < n {
            lemma_extents_ordered(extents, i, n);
        }
    }
}

/// The direction of a transfer.
#[derive(Clone, Copy, Debug, PartialEq, Eq, Structural)]
pub enum Direction {
    /// From the disk to a buffer.
    Read,
    /// From a buffer to the disk.
    Write,
}

/// What a transfer meets at the disk's side.
#[derive(Clone, Copy, Debug, PartialEq, Eq, Structural)]
pub enum Target {
    /// The bytes of a file from `offset` on.
    File { file: usize, offset: u64 },
    /// Zeroes.
    Zero,
}

/// A transfer: `len` bytes of the buffer from `start` on, and where they come
/// from or go to.
#[derive(Clone, Copy, Debug, PartialEq, Eq, Structural)]
pub struct Chunk {
    pub start: usize,
    pub len: usize,
    pub target: Target,
}

/// What a request needs: transfers, to be carried out in order, and then what
/// the request comes to if none of them fails.
#[derive(Debug)]
pub struct TransferPlan {
    pub chunks: Vec<Chunk>,
    /// The number of bytes transferred, or why the request goes no further.
    pub outcome: Result<usize, VmdkError>,
}

/// The view of a [`TransferPlan`].
pub struct PlanView {
    pub chunks: Seq<Chunk>,
    pub outcome: Result<usize, error::Failure>,
}

impl View for TransferPlan {
    type V = PlanView;

    open spec fn view(&self) -> PlanView {
        PlanView { chunks: self.chunks@, outcome: error::seen(self.outcome) }
    }
}

/// What a transfer meets at byte `in_extent` of a storage.
pub open spec fn stored_at(storage: Option<ExtentStorage>, in_extent: int) -> Result<
    Target,
    error::Failure,
> {
    match storage {
        Some(ExtentStorage::Flat { file, offset }) => if offset + in_extent > u64::MAX {
            Err(error::invalid_data_failure("extent overflow"@))
        } else {
            Ok(Target::File { file, offset: (offset + in_extent) as u64 })
        },
        Some(ExtentStorage::Zero) => Ok(Target::Zero),
        None => Err(error::invalid_data_failure("extent data source missing"@)),
    }
}

/// What a read meets at byte `in_extent` of an extent, or why it may not read
/// there.
pub open spec fn read_target(extent: VmdkExtent, in_extent: int) -> Result<
    Target,
    error::Failure,
> {
    if extent.access == VmdkAccess::NoAccess {
        Err(
            error::Failure {
                kind: ErrorKind::PermissionDenied,
                message: "attempted to read a NOACCESS extent"@,
            },
        )
    } else {
        stored_at(extent.storage, in_extent)
    }
}

/// What a write meets at byte `in_extent` of an extent, or why it may not write
/// there.
pub open spec fn write_target(extent: VmdkExtent, in_extent: int) -> Result<
    Target,
    error::Failure,
> {
    if extent.access != VmdkAccess::ReadWrite {
        Err(
            error::Failure {
                kind: ErrorKind::PermissionDenied,
                message: "attempted to write a read-only VMDK extent"@,
            },
        )
    } else if extent.storage == Some(ExtentStorage::Zero) {
        Err(
            error::Failure {
                kind: ErrorKind::Unsupported,
                message: "write to ZERO extent is not supported"@,
            },
        )
    } else {
        stored_at(extent.storage, in_extent)
    }
}

pub open spec fn target_at(direction: Direction, extent: VmdkExtent, in_extent: int) -> Result<
    Target,
    error::Failure,
> {
    match direction {
        Direction::Read => read_target(extent, in_extent),
        Direction::Write => write_target(extent, in_extent),
    }
}

/// The plan for the rest of a request: `len` bytes of the disk from `offset` on,
/// where the buffer's first `start` bytes are dealt with. Each transfer goes on
/// to the end of its extent or of the request.
pub open spec fn rest_of_plan(
    direction: Direction,
    extents: Seq<VmdkExtent>,
    offset: int,
    start: int,
    len: int,
) -> PlanView
    decreases len,
{
    let i = extent_index(extents, offset);
    if len <= 0 {
        PlanView { chunks: Seq::empty(), outcome: Ok(start as usize) }
    } else if !is_extent_at(extents, offset, i) {
        PlanView {
            chunks: Seq::empty(),
            outcome: Err(error::invalid_data_failure("missing VMDK extent"@)),
        }
    } else {
        let extent = extents[i];
        match target_at(direction, extent, offset - extent.disk_range.start) {
            Err(failure) => PlanView { chunks: Seq::empty(), outcome: Err(failure) },
            Ok(target) => {
                let left = extent.disk_range.end - offset;
                let n = if left < len {
                    left
                } else {
                    len
                };
                let rest = rest_of_plan(direction, extents, offset + n, start + n, len - n);
                PlanView {
                    chunks: seq![Chunk { start: start as usize, len: n as usize, target }]
                        + rest.chunks,
                    outcome: rest.outcome,
                }
            },
        }
    }
}

/// The failure of a request that starts on the disk and ends behind it.
pub open spec fn past_end(direction: Direction) -> error::Failure {
    error::Failure {
        kind: ErrorKind::UnexpectedEof,
        message: match direction {
            Direction::Read => "read exceeds VMDK virtual size"@,
            Direction::Write => "write exceeds VMDK virtual size"@,
        },
    }
}

/// The plan for a request: `len` bytes of the disk from `offset` on.
pub open spec fn plan_of(
    direction: Direction,
    extents: Seq<VmdkExtent>,
    offset: int,
    len: int,
) -> PlanView {
    if offset >= disk_size(extents) {
        PlanView { chunks: Seq::empty(), outcome: Ok(0) }
    } else if offset + len > disk_size(extents) {
        PlanView { chunks: Seq::empty(), outcome: Err(past_end(direction)) }
    } else {
        rest_of_plan(direction, extents, offset, 0, len)
    }
}

proof fn lemma_rest_outcome(
    direction: Direction,
    extents: Seq<VmdkExtent>,
    offset: int,
    start: int,
    len: int,
)
    requires
        0 <= len,
    ensures
        rest_of_plan(direction, extents, offset, start, len).outcome matches Ok(n) ==> n == (start
            + len) as usize,
    decreases len,
{
    let i = extent_index(extents, offset);
    if len > 0 && is_extent_at(extents, offset, i) {
        let left = extents[i].disk_range.end - offset;
        let n = if left < len {
            left
        } else {
            len
        };
        lemma_rest_outcome(direction, extents, offset + n, start + n, len - n);
    }
}

/// A request that comes to a number of bytes is carried out in full, or starts
/// behind the disk and comes to nothing.
pub proof fn lemma_plan_outcome(
    direction: Direction,
    extents: Seq<VmdkExtent>,
    offset: int,
    len: int,
)
    requires
        0 <= len <= usize::MAX,
    ensures
        plan_of(direction, extents, offset, len).outcome matches Ok(n) ==> if offset < disk_size(
            extents,
        ) {
            n == len && offset + len <= disk_size(extents)
        } else {
            n == 0
        },
{
    lemma_rest_outcome(direction, extents, offset, 0, len);
}

/// Whether a transfer of a request at `offset` lies within one extent, and meets
/// what the extent lets it meet there.
pub open spec fn is_permitted(
    direction: Direction,
    extents: Seq<VmdkExtent>,
    offset: int,
    chunk: Chunk,
) -> bool {
    let first = offset + chunk.start;
    let i = extent_index(extents, first);
    &&& is_extent_at(extents, first, i)
    &&& first + chunk.len <= extents[i].disk_range.end
    &&& target_at(direction, extents[i], first - extents[i].disk_range.start) == Ok::<
        Target,
        error::Failure,
    >(chunk.target)
}

proof fn lemma_rest_transfers(
    direction: Direction,
    extents: Seq<VmdkExtent>,
    offset: int,
    start: int,
    len: int,
    k: int,
)
    requires
        0 <= start,
        0 <= len,
        start + len <= usize::MAX,
        0 <= k < rest_of_plan(direction, extents, offset, start, len).chunks.len(),
    ensures
        ({
            let plan = rest_of_plan(direction, extents, offset, start, len);
            let chunk = plan.chunks[k];
            &&& is_permitted(direction, extents, offset - start, chunk)
            &&& chunk.len > 0
            &&& chunk.start == if k == 0 {
                start
            } else {
                plan.chunks[k - 1].start + plan.chunks[k - 1].len
            }
            &&& chunk.start + chunk.len <= start + len
            &&& chunk.start + chunk.len == start + len || offset - start + chunk.start + chunk.len
                == extents[extent_index(extents, offset - start + chunk.start)].disk_range.end
            &&& plan.outcome is Ok && k == plan.chunks.len() - 1 ==> chunk.start + chunk.len
                == start + len
        }),
    decreases len,
{
    let i = extent_index(extents, offset);
    let left = extents[i].disk_range.end - offset;
    let n = if left < len {
        left
    } else {
        len
    };
    let plan = rest_of_plan(direction, extents, offset, start, len);
    let rest = rest_of_plan(direction, extents, offset + n, start + n, len - n);
    assert(plan.chunks.drop_first() =~= rest.chunks);
    assert(offset - start + start == offset);
    if k > 0 {
        lemma_rest_transfers(direction, extents, offset + n, start + n, len - n, k - 1);
        assert(plan.chunks[k] == rest.chunks[k - 1]);
        assert(offset + n - (start + n) == offset - start);
        if k > 1 {
            assert(plan.chunks[k - 1] == rest.chunks[k - 2]);
        }
    } else if plan.chunks.len() == 1 && plan.outcome is Ok {
        if len - n > 0 {
            let j = extent_index(extents, offset + n);
            assert(rest.chunks.len() == 0);
        }
    }
}

/// Transfers deal with a buffer from its first byte, one behind the other and none
/// of them empty. Each stays within one extent that permits it, also where the
/// request fails further on; a request that does not fail deals with all of the
/// buffer. A transfer goes on to the end of its extent or of the request. A write goes to
/// files only.
pub proof fn law_transfers_permitted(
    direction: Direction,
    extents: Seq<VmdkExtent>,
    offset: int,
    len: int,
    k: int,
)
    requires
        0 <= len <= usize::MAX,
        0 <= k < plan_of(direction, extents, offset, len).chunks.len(),
    ensures
        ({
            let plan = plan_of(direction, extents, offset, len);
            let chunk = plan.chunks[k];
            &&& is_permitted(direction, extents, offset, chunk)
            &&& chunk.len > 0
            &&& chunk.start == if k == 0 {
                0
            } else {
                plan.chunks[k - 1].start + plan.chunks[k - 1].len
            }
            &&& chunk.start + chunk.len <= len
            &&& chunk.start + chunk.len == len || offset + chunk.start + chunk.len
                == extents[extent_index(extents, offset + chunk.start)].disk_range.end
            &&& plan.outcome is Ok && k == plan.chunks.len() - 1 ==> chunk.start + chunk.len == len
            &&& direction == Direction::Write ==> chunk.target is File
        }),
{
    lemma_rest_transfers(direction, extents, offset, 0, len, k);
}

/// Whether a request for `len` bytes from `offset` on has bytes of the extent.
pub open spec fn meets(extent: VmdkExtent, offset: int, len: int) -> bool {
    &&& 0 < len
    &&& extent.disk_range.start < extent.disk_range.end
    &&& extent.disk_range.start < offset + len
    &&& offset < extent.disk_range.end
}

/// The first byte of the disk that a request from `offset` on has of the extent.
pub open spec fn first_met(extent: VmdkExtent, offset: int) -> int {
    if extent.disk_range.start < offset {
        offset
    } else {
        extent.disk_range.start as int
    }
}

spec fn serves(direction: Direction, extent: VmdkExtent, offset: int) -> bool {
    target_at(direction, extent, first_met(extent, offset) - extent.disk_range.start) is Ok
}

proof fn lemma_rest_succeeds(
    direction: Direction,
    extents: Seq<VmdkExtent>,
    offset: int,
    start: int,
    len: int,
)
    requires
        end_to_end(extents),
        0 <= offset,
        0 <= start,
        0 <= len,
        offset + len <= disk_size(extents),
        forall|i: int|
            0 <= i < extents.len() && meets(#[trigger] extents[i], offset, len) ==> serves(
                direction,
                extents[i],
                offset,
            ),
    ensures
        rest_of_plan(direction, extents, offset, start, len).outcome is Ok,
    decreases len,
{
    if len > 0 {
        lemma_extents_cover(extents, offset);
        let i = extent_index(extents, offset);
        let left = extents[i].disk_range.end - offset;
        let n = if left < len {
            left
        } else {
            len
        };
        assert(meets(extents[i], offset, len));
        assert forall|j: int|
            0 <= j < extents.len() && meets(#[trigger] extents[j], offset + n, len - n) implies
            serves(direction, extents[j], offset + n) by {
            if j < i {
                lemma_extents_ordered(extents, j, i);
            } else if i < j {
                lemma_extents_ordered(extents, i, j);
            }
            assert(meets(extents[j], offset, len));
        }
        lemma_rest_succeeds(direction, extents, offset + n, start + n, len - n);
    }
}

/// A read succeeds in full where it stays on the disk and every extent that it meets
/// may be accessed and has a storage, whose file has a position for the first byte
/// that is read of it.
pub proof fn law_read_succeeds(extents: Seq<VmdkExtent>, offset: int, len: int)
    requires
        end_to_end(extents),
        0 <= offset < disk_size(extents),
        0 <= len <= usize::MAX,
        offset + len <= disk_size(extents),
        forall|i: int|
            0 <= i < extents.len() && meets(#[trigger] extents[i], offset, len) ==> {
                &&& extents[i].access != VmdkAccess::NoAccess
                &&& extents[i].storage is Some
                &&& extents[i].storage matches Some(ExtentStorage::Flat { offset: base, .. })
                    ==> base + (first_met(extents[i], offset) - extents[i].disk_range.start)
                    <= u64::MAX
            },
    ensures
        plan_of(Direction::Read, extents, offset, len).outcome == Ok::<usize, error::Failure>(
            len as usize,
        ),
{
    lemma_rest_succeeds(Direction::Read, extents, offset, 0, len);
    lemma_rest_outcome(Direction::Read, extents, offset, 0, len);
}

/// A write succeeds in full where it stays on the disk and every extent that it meets
/// is writable and kept in a file, which has a position for the first byte that is
/// written of it.
pub proof fn law_write_succeeds(extents: Seq<VmdkExtent>, offset: int, len: int)
    requires
        end_to_end(extents),
        0 <= offset < disk_size(extents),
        0 <= len <= usize::MAX,
        offset + len <= disk_size(extents),
        forall|i: int|
            0 <= i < extents.len() && meets(#[trigger] extents[i], offset, len) ==> {
                &&& extents[i].access == VmdkAccess::ReadWrite
                &&& extents[i].storage matches Some(ExtentStorage::Flat { offset: base, .. })
                    && base + (first_met(extents[i], offset) - extents[i].disk_range.start)
                    <= u64::MAX
            },
    ensures
        plan_of(Direction::Write, extents, offset, len).outcome == Ok::<usize, error::Failure>(
            len as usize,
        ),
{
    lemma_rest_succeeds(Direction::Write, extents, offset, 0, len);
    lemma_rest_outcome(Direction::Write, extents, offset, 0, len);
}

/// A request that starts behind the disk comes to nothing. One that starts on the disk
/// and ends behind it fails. Neither has transfers.
pub proof fn law_requests_at_the_end(
    direction: Direction,
    extents: Seq<VmdkExtent>,
    offset: int,
    len: int,
)
    requires
        0 <= len,
        offset >= disk_size(extents) || offset + len > disk_size(extents),
    ensures
        plan_of(direction, extents, offset, len).chunks.len() == 0,
        offset >= disk_size(extents) ==> plan_of(direction, extents, offset, len).outcome == Ok::<
            usize,
            error::Failure,
        >(0),
        offset < disk_size(extents) ==> plan_of(direction, extents, offset, len).outcome == Err::<
            usize,
            error::Failure,
        >(
            error::Failure {
                kind: ErrorKind::UnexpectedEof,
                message: if direction == Direction::Read {
                    "read exceeds VMDK virtual size"@
                } else {
                    "write exceeds VMDK virtual size"@
                },
            },
        ),
{
}

proof fn lemma_rest_refused(
    direction: Direction,
    extents: Seq<VmdkExtent>,
    offset: int,
    start: int,
    len: int,
) -> (i: int)
    requires
        end_to_end(extents),
        0 <= offset,
        0 <= start,
        0 <= len,
        start + len <= usize::MAX,
        offset + len <= disk_size(extents),
        rest_of_plan(direction, extents, offset, start, len).outcome is Err,
    ensures
        0 <= i < extents.len(),
        meets(extents[i], offset, len),
        ({
            let plan = rest_of_plan(direction, extents, offset, start, len);
            let first = first_met(extents[i], offset);
            &&& target_at(direction, extents[i], first - extents[i].disk_range.start) == Err::<
                Target,
                error::Failure,
            >(plan.outcome->Err_0)
            &&& if plan.chunks.len() == 0 {
                first == offset
            } else {
                plan.chunks.last().start + plan.chunks.last().len - start == first - offset
            }
        }),
    decreases len,
{
    lemma_extents_cover(extents, offset);
    let e = extent_index(extents, offset);
    let left = extents[e].disk_range.end - offset;
    let n = if left < len {
        left
    } else {
        len
    };
    let plan = rest_of_plan(direction, extents, offset, start, len);
    if plan.chunks.len() == 0 {
        e
    } else {
        let rest = rest_of_plan(direction, extents, offset + n, start + n, len - n);
        assert(plan.chunks.drop_first() =~= rest.chunks);
        let i = lemma_rest_refused(direction, extents, offset + n, start + n, len - n);
        if i < e {
            lemma_extents_ordered(extents, i, e);
        } else if e < i {
            lemma_extents_ordered(extents, e, i);
        }
        if rest.chunks.len() > 0 {
            assert(plan.chunks.last() == rest.chunks.last());
        }
        i
    }
}

/// A read on the disk fails only of an extent that it meets, and for that extent's
/// reason. The bytes in front of the extent are transferred.
pub proof fn law_read_refused(extents: Seq<VmdkExtent>, offset: int, len: int) -> (i: int)
    requires
        end_to_end(extents),
        0 <= offset,
        0 <= len <= usize::MAX,
        offset + len <= disk_size(extents),
        plan_of(Direction::Read, extents, offset, len).outcome is Err,
    ensures
        0 <= i < extents.len(),
        meets(extents[i], offset, len),
        ({
            let plan = plan_of(Direction::Read, extents, offset, len);
            let extent = extents[i];
            let first = first_met(extent, offset);
            let failure = plan.outcome->Err_0;
            &&& plan.chunks.len() == 0 ==> first == offset
            &&& plan.chunks.len() > 0 ==> plan.chunks.last().start + plan.chunks.last().len
                == first - offset
            &&& if extent.access == VmdkAccess::NoAccess {
                failure == (error::Failure {
                    kind: ErrorKind::PermissionDenied,
                    message: "attempted to read a NOACCESS extent"@,
                })
            } else {
                &&& failure.kind == ErrorKind::InvalidData
                &&& match extent.storage {
                    None => failure.message == "extent data source missing"@,
                    Some(ExtentStorage::Zero) => false,
                    Some(ExtentStorage::Flat { offset: base, .. }) => failure.message
                        == "extent overflow"@ && base + (first - extent.disk_range.start)
                        > u64::MAX,
                }
            }
        }),
{
    lemma_rest_refused(Direction::Read, extents, offset, 0, len)
}

/// A write on the disk fails only of an extent that it meets, and for that extent's
/// reason. The bytes in front of the extent are transferred.
pub proof fn law_write_refused(extents: Seq<VmdkExtent>, offset: int, len: int) -> (i: int)
    requires
        end_to_end(extents),
        0 <= offset,
        0 <= len <= usize::MAX,
        offset + len <= disk_size(extents),
        plan_of(Direction::Write, extents, offset, len).outcome is Err,
    ensures
        0 <= i < extents.len(),
        meets(extents[i], offset, len),
        ({
            let plan = plan_of(Direction::Write, extents, offset, len);
            let extent = extents[i];
            let first = first_met(extent, offset);
            let failure = plan.outcome->Err_0;
            &&& plan.chunks.len() == 0 ==> first == offset
            &&& plan.chunks.len() > 0 ==> plan.chunks.last().start + plan.chunks.last().len
                == first - offset
            &&& if extent.access != VmdkAccess::ReadWrite {
                failure == (error::Failure {
                    kind: ErrorKind::PermissionDenied,
                    message: "attempted to write a read-only VMDK extent"@,
                })
            } else {
                match extent.storage {
                    None => failure == (error::Failure {
                        kind: ErrorKind::InvalidData,
                        message: "extent data source missing"@,
                    }),
                    Some(ExtentStorage::Zero) => failure == (error::Failure {
                        kind: ErrorKind::Unsupported,
                        message: "write to ZERO extent is not supported"@,
                    }),
                    Some(ExtentStorage::Flat { offset: base, .. }) => failure == (error::Failure {
                        kind: ErrorKind::InvalidData,
                        message: "extent overflow"@,
                    }) && base + (first - extent.disk_range.start) > u64::MAX,
                }
            }
        }),
{
    lemma_rest_refused(Direction::Write, extents, offset, 0, len)
}

/// Each transfer meets the bytes of one extent where that extent keeps them: in its
/// file, as far behind the extent's first byte there as on the disk, or nowhere where
/// they are zero. It goes on to the end of the extent or of the request.
pub proof fn law_transfers_meet_their_extents(
    direction: Direction,
    extents: Seq<VmdkExtent>,
    offset: int,
    len: int,
    k: int,
) -> (i: int)
    requires
        0 <= len <= usize::MAX,
        0 <= k < plan_of(direction, extents, offset, len).chunks.len(),
    ensures
        0 <= i < extents.len(),
        ({
            let chunk = plan_of(direction, extents, offset, len).chunks[k];
            let extent = extents[i];
            let first = offset + chunk.start;
            &&& extent.disk_range.start <= first
            &&& first + chunk.len <= extent.disk_range.end
            &&& first + chunk.len == extent.disk_range.end || chunk.start + chunk.len == len
            &&& extent.access != VmdkAccess::NoAccess
            &&& direction == Direction::Write ==> extent.access == VmdkAccess::ReadWrite
            &&& match chunk.target {
                Target::File { file, offset: position } => extent.storage matches Some(
                    ExtentStorage::Flat { file: kept, offset: base },
                ) && kept == file && position == base + (first - extent.disk_range.start),
                Target::Zero => extent.storage == Some(ExtentStorage::Zero),
            }
        }),
{
    law_transfers_permitted(direction, extents, offset, len, k);
    extent_index(extents, offset + plan_of(direction, extents, offset, len).chunks[k].start)
}

/// The number of bytes in extents, counted one by one.
pub open spec fn bytes_in(extents: Seq<VmdkExtent>) -> int
    decreases extents.len(),
{
    if extents.len() == 0 {
        0
    } else {
        bytes_in(extents.drop_last()) + (extents.last().disk_range.end
            - extents.last().disk_range.start)
    }
}

/// A disk has as many bytes as its extents together.
pub proof fn law_disk_size_is_sum(extents: Seq<VmdkExtent>)
    requires
        end_to_end(extents),
    ensures
        disk_size(extents) == bytes_in(extents),
    decreases extents.len(),
{
    if extents.len() > 0 {
        let n = extents.len() - 1;
        let front = extents.drop_last();
        assert(in_place(extents, n));
        assert(extents.take(n) =~= front);
        assert forall|i: int| 0 <= i < front.len() implies #[trigger] in_place(front, i) by {
            assert(in_place(extents, i));
            assert(front.take(i) =~= extents.take(i));
        }
        law_disk_size_is_sum(front);
    }
}

/// Whether an extent keeps its bytes in the file with this number.
pub open spec fn is_kept_in(extent: VmdkExtent, file: usize) -> bool {
    extent.storage matches Some(ExtentStorage::Flat { file: kept, .. }) && kept == file
}

/// The files of extents are those that the extents keep their bytes in, and no others.
pub proof fn law_files_of_extents(extents: Seq<VmdkExtent>, file: usize)
    ensures
        files_of(extents).contains(file) <==> exists|i: int|
            0 <= i < extents.len() && is_kept_in(#[trigger] extents[i], file),
    decreases extents.len(),
{
    if extents.len() > 0 {
        let front = extents.drop_last();
        let all = files_of(extents);
        let earlier = files_of(front);
        law_files_of_extents(front, file);
        if exists|i: int| 0 <= i < front.len() && is_kept_in(#[trigger] front[i], file) {
            let i = choose|i: int| 0 <= i < front.len() && is_kept_in(#[trigger] front[i], file);
            assert(extents[i] == front[i]);
            let k = choose|k: int| 0 <= k < earlier.len() && earlier[k] == file;
            assert(all[k] == file);
        }
        if exists|i: int| 0 <= i < extents.len() && is_kept_in(#[trigger] extents[i], file) {
            let i = choose|i: int|
                0 <= i < extents.len() && is_kept_in(#[trigger] extents[i], file);
            if i < front.len() {
                assert(front[i] == extents[i]);
            } else {
                assert(all[all.len() - 1] == file);
            }
        }
        if all.contains(file) {
            let k = choose|k: int| 0 <= k < all.len() && all[k] == file;
            if k < earlier.len() {
                assert(earlier[k] == file);
            } else {
                assert(is_kept_in(extents[extents.len() - 1], file));
            }
        }
    }
}

/// Files come in the order of the extents: those of `first` and then those of
/// `second`, one for each extent that is kept in a file.
pub proof fn law_files_in_order(first: Seq<VmdkExtent>, second: Seq<VmdkExtent>)
    ensures
        files_of(first + second) == files_of(first) + files_of(second),
        second.len() == 1 ==> files_of(second) == match second[0].storage {
            Some(ExtentStorage::Flat { file, .. }) => seq![file],
            _ => Seq::empty(),
        },
    decreases second.len(),
{
    if second.len() == 0 {
        assert(first + second =~= first);
        assert(files_of(first) + files_of(second) =~= files_of(first));
    } else {
        let front = second.drop_last();
        law_files_in_order(first, front);
        assert((first + second).drop_last() =~= first + front);
        assert(files_of(first + second) =~= files_of(first) + files_of(second));
        if second.len() == 1 {
            assert(front =~= Seq::empty());
            assert(files_of(front) =~= Seq::empty());
        }
    }
}

/// Decides what a transfer meets at byte `in_extent` of a storage.
fn locate(storage: &Option<ExtentStorage>, in_extent: u64) -> (target: Result<Target, VmdkError>)
    ensures
        error::seen(target) == stored_at(*storage, in_extent as int),
{
    match storage {
        Some(ExtentStorage::Flat { file, offset }) => match offset.checked_add(in_extent) {
            Some(offset) => Ok(Target::File { file: *file, offset }),
            None => Err(invalid_data("extent overflow")),
        },
        Some(ExtentStorage::Zero) => Ok(Target::Zero),
        None => Err(invalid_data("extent data source missing")),
    }
}

/// Decides what a read meets at byte `in_extent` of an extent.
pub fn read_extent(extent: &VmdkExtent, in_extent: u64) -> (target: Result<Target, VmdkError>)
    ensures
        error::seen(target) == read_target(*extent, in_extent as int),
        target is Ok <==> extent.access != VmdkAccess::NoAccess && match extent.storage {
            Some(ExtentStorage::Flat { offset, .. }) => offset + in_extent <= u64::MAX,
            Some(ExtentStorage::Zero) => true,
            None => false,
        },
        target matches Ok(place) ==> place == match extent.storage {
            Some(ExtentStorage::Flat { file, offset }) => Target::File {
                file,
                offset: (offset + in_extent) as u64,
            },
            _ => Target::Zero,
        },
{
    if extent.access == VmdkAccess::NoAccess {
        return Err(
            VmdkError::new(ErrorKind::PermissionDenied, "attempted to read a NOACCESS extent"),
        );
    }
    locate(&extent.storage, in_extent)
}

/// Decides what a write meets at byte `in_extent` of an extent.
pub fn write_extent(extent: &VmdkExtent, in_extent: u64) -> (target: Result<Target, VmdkError>)
    ensures
        error::seen(target) == write_target(*extent, in_extent as int),
        target is Ok <==> extent.access == VmdkAccess::ReadWrite && match extent.storage {
            Some(ExtentStorage::Flat { offset, .. }) => offset + in_extent <= u64::MAX,
            _ => false,
        },
        target matches Ok(place) ==> (extent.storage matches Some(
            ExtentStorage::Flat { file, offset },
        ) && place == (Target::File { file, offset: (offset + in_extent) as u64 })),
{
    match extent.access {
        VmdkAccess::ReadWrite => {},
        VmdkAccess::ReadOnly | VmdkAccess::NoAccess => {
            return Err(
                VmdkError::new(
                    ErrorKind::PermissionDenied,
                    "attempted to write a read-only VMDK extent",
                ),
            );
        },
    }
    if let Some(ExtentStorage::Zero) = extent.storage {
        return Err(
            VmdkError::new(ErrorKind::Unsupported, "write to ZERO extent is not supported"),
        );
    }
    locate(&extent.storage, in_extent)
}

/// Judges a transfer of `len` bytes of which `count` were transferred.
pub fn check_transfer(direction: Direction, count: usize, len: usize) -> (verdict: Result<
    (),
    VmdkError,
>)
    ensures
        error::seen(verdict) == (if count == len {
            Ok(())
        } else {
            Err(
                match direction {
                    Direction::Read => error::Failure {
                        kind: ErrorKind::UnexpectedEof,
                        message: "short read from VMDK extent"@,
                    },
                    Direction::Write => error::Failure {
                        kind: ErrorKind::WriteZero,
                        message: "short write to VMDK extent"@,
                    },
                },
            )
        }),
{
    if count == len {
        return Ok(());
    }
    Err(
        match direction {
            Direction::Read => VmdkError::new(
                ErrorKind::UnexpectedEof,
                "short read from VMDK extent",
            ),
            Direction::Write => VmdkError::new(ErrorKind::WriteZero, "short write to VMDK extent"),
        },
    )
}

/// A disk.
#[derive(Debug)]
pub struct VmdkDisk {
    virtual_size: u64,
    extents: Vec<VmdkExtent>,
}

impl View for VmdkDisk {
    type V = Seq<VmdkExtent>;

    closed spec fn view(&self) -> Seq<VmdkExtent> {
        self.extents@
    }
}

/// The numbers of the files that extents keep their bytes in, in order.
pub open spec fn files_of(extents: Seq<VmdkExtent>) -> Seq<usize>
    decreases extents.len(),
{
    if extents.len() == 0 {
        Seq::empty()
    } else {
        let front = files_of(extents.drop_last());
        match extents.last().storage {
            Some(ExtentStorage::Flat { file, .. }) => front.push(file),
            _ => front,
        }
    }
}

impl VmdkDisk {
    #[verifier::type_invariant]
    pub(crate) closed spec fn valid(self) -> bool {
        &&& end_to_end(self.extents@)
        &&& self.virtual_size == disk_size(self.extents@)
    }

    /// A disk without extents.
    pub(crate) fn empty() -> (disk: VmdkDisk)
        ensures
            disk@ == Seq::<VmdkExtent>::empty(),
    {
        VmdkDisk { virtual_size: 0, extents: Vec::new() }
    }

    /// The number of bytes on the disk.
    pub fn virtual_size(&self) -> (size: u64)
        ensures
            size == disk_size(self@),
            end_to_end(self@),
    {
        proof {
            use_type_invariant(self);
        }
        self.virtual_size
    }

    /// Adds an extent of `size` bytes at the end of the disk.
    pub(crate) fn with_extent(
        self,
        access: VmdkAccess,
        size: u64,
        storage: Option<ExtentStorage>,
    ) -> (disk: VmdkDisk)
        requires
            disk_size(self@) + size <= u64::MAX,
        ensures
            disk@ == self@.push(
                VmdkExtent {
                    access,
                    disk_range: Range {
                        start: disk_size(self@) as u64,
                        end: (disk_size(self@) + size) as u64,
                    },
                    storage,
                },
            ),
    {
        proof {
            use_type_invariant(&self);
        }
        let start: u64 = self.virtual_size;
        let end: u64 = start + size;
        let mut extents = self.extents;
        let ghost before = extents@;
        extents.push(VmdkExtent { access, disk_range: Range { start, end }, storage });
        proof {
            assert forall|i: int| 0 <= i < extents@.len() implies #[trigger] in_place(
                extents@,
                i,
            ) by {
                assert(extents@.take(i) =~= before.take(i));
                if i < before.len() {
                    assert(in_place(before, i));
                } else {
                    assert(before.take(i) =~= before);
                }
            }
        }
        VmdkDisk { virtual_size: end, extents }
    }

    /// Finds the extent that holds the byte of the disk at `offset`.
    pub fn extent_for_offset(&self, offset: u64) -> (found: Option<&VmdkExtent>)
        ensures
            match found {
                Some(extent) => {
                    &&& is_extent_at(self@, offset as int, extent_index(self@, offset as int))
                    &&& *extent == self@[extent_index(self@, offset as int)]
                },
                None => offset >= disk_size(self@),
            },
            found is Some <==> offset < disk_size(self@),
            match found {
                Some(extent) => extent.disk_range.start <= offset < extent.disk_range.end
                    && self@.contains(*extent),
                None => forall|i: int|
                    0 <= i < self@.len() ==> !((#[trigger] self@[i]).disk_range.start <= offset
                        < self@[i].disk_range.end),
            },
    {
        proof {
            use_type_invariant(self);
            lemma_extents_cover(self.extents@, offset as int);
        }
        let mut low: usize = 0;
        let mut high: usize = self.extents.len();
        while low < high
            invariant
                low <= high <= self.extents@.len(),
                end_to_end(self.extents@),
                offset < disk_size(self.extents@) <==> is_extent_at(
                    self.extents@,
                    offset as int,
                    extent_index(self.extents@, offset as int),
                ),
                is_extent_at(
                    self.extents@,
                    offset as int,
                    extent_index(self.extents@, offset as int),
                ) ==> low <= extent_index(self.extents@, offset as int) < high,
            decreases high - low,
        {
            let middle: usize = low + (high - low) / 2;
            let extent = &self.extents[middle];
            let ghost at = extent_index(self.extents@, offset as int);
            if extent.disk_range.end <= offset {
                proof {
                    assert(in_place(self.extents@, middle as int));
                    if at < middle && is_extent_at(self.extents@, offset as int, at) {
                        lemma_extents_ordered(self.extents@, at, middle as int);
                    }
                }
                low = middle + 1;
            } else if offset < extent.disk_range.start {
                proof {
                    if middle < at && is_extent_at(self.extents@, offset as int, at) {
                        lemma_extents_ordered(self.extents@, middle as int, at);
                        assert(in_place(self.extents@, middle as int));
                    }
                }
                high = middle;
            } else {
                proof {
                    assert(is_extent_at(self.extents@, offset as int, middle as int));
                    lemma_extent_unique(self.extents@, offset as int, middle as int);
                }
                return Some(extent);
            }
        }
        proof {
            assert forall|i: int| 0 <= i < self@.len() implies !((
            #[trigger] self@[i]).disk_range.start <= offset < self@[i].disk_range.end) by {
                if is_extent_at(self@, offset as int, i) {
                    lemma_extent_unique(self@, offset as int, i);
                }
            }
        }
        None
    }

    /// Plans the transfers of a request.
    fn plan(&self, direction: Direction, disk_offset: u64, len: usize) -> (plan: TransferPlan)
        ensures
            plan@ == plan_of(direction, self@, disk_offset as int, len as int),
    {
        proof {
            use_type_invariant(self);
        }
        let mut chunks: Vec<Chunk> = Vec::new();
        if disk_offset >= self.virtual_size {
            return TransferPlan { chunks, outcome: Ok(0) };
        }
        if len as u64 > self.virtual_size - disk_offset {
            let message = match direction {
                Direction::Read => "read exceeds VMDK virtual size",
                Direction::Write => "write exceeds VMDK virtual size",
            };
            let error = VmdkError::new(ErrorKind::UnexpectedEof, message);
            return TransferPlan { chunks, outcome: Err(error) };
        }
        let ghost whole = rest_of_plan(direction, self@, disk_offset as int, 0, len as int);
        let mut offset: u64 = disk_offset;
        let mut start: usize = 0;
        while start < len
            invariant
                start <= len,
                offset == disk_offset + start,
                disk_offset + len <= disk_size(self@) <= u64::MAX,
                end_to_end(self@),
                whole.chunks == chunks@ + rest_of_plan(
                    direction,
                    self@,
                    offset as int,
                    start as int,
                    len - start,
                ).chunks,
                whole.outcome == rest_of_plan(
                    direction,
                    self@,
                    offset as int,
                    start as int,
                    len - start,
                ).outcome,
                whole == plan_of(direction, self@, disk_offset as int, len as int),
            decreases len - start,
        {
            let extent = match self.extent_for_offset(offset) {
                Some(extent) => extent,
                None => {
                    let outcome = Err(invalid_data("missing VMDK extent"));
                    return TransferPlan { chunks, outcome };
                },
            };
            let in_extent: u64 = offset - extent.disk_range.start;
            let left: u64 = extent.disk_range.end - offset;
            let n: usize = if left < (len - start) as u64 {
                left as usize
            } else {
                len - start
            };
            let target = match direction {
                Direction::Read => read_extent(extent, in_extent),
                Direction::Write => write_extent(extent, in_extent),
            };
            match target {
                Ok(target) => {
                    let ghost before = chunks@;
                    let chunk = Chunk { start, len: n, target };
                    chunks.push(chunk);
                    proof {
                        let rest = rest_of_plan(
                            direction,
                            self@,
                            offset + n,
                            start + n,
                            len - start - n,
                        ).chunks;
                        assert(before + (seq![chunk] + rest) =~= chunks@ + rest);
                    }
                },
                Err(error) => {
                    assert(whole.chunks =~= chunks@);
                    return TransferPlan { chunks, outcome: Err(error) };
                },
            }
            offset += n as u64;
            start += n;
        }
        assert(whole.chunks =~= chunks@);
        TransferPlan { chunks, outcome: Ok(len) }
    }

    /// Plans a read of `len` bytes from `disk_offset` on. A read that starts
    /// behind the disk reads nothing.
    pub fn read_into_slice(&self, disk_offset: u64, len: usize) -> (plan: TransferPlan)
        ensures
            plan@ == plan_of(Direction::Read, self@, disk_offset as int, len as int),
    {
        self.plan(Direction::Read, disk_offset, len)
    }

    /// Plans a write of `len` bytes from `disk_offset` on. A write that starts
    /// behind the disk writes nothing.
    pub fn write_from_slice(&self, disk_offset: u64, len: usize) -> (plan: TransferPlan)
        ensures
            plan@ == plan_of(Direction::Write, self@, disk_offset as int, len as int),
    {
        self.plan(Direction::Write, disk_offset, len)
    }

    /// Lists the files to bring to stable storage, in the order of the extents.
    pub fn data_files(&self) -> (files: Vec<usize>)
        ensures
            files@ == files_of(self@),
            forall|file: usize|
                #[trigger] files@.contains(file) <==> exists|i: int|
                    0 <= i < self@.len() && is_kept_in(#[trigger] self@[i], file),
    {
        let mut files: Vec<usize> = Vec::new();
        let mut i: usize = 0;
        assert(self.extents@.take(0) =~= Seq::empty());
        while i < self.extents.len()
            invariant
                i <= self.extents@.len(),
                files@ == files_of(self.extents@.take(i as int)),
            decreases self.extents@.len() - i,
        {
            assert(self.extents@.take(i + 1).drop_last() =~= self.extents@.take(i as int));
            if let Some(ExtentStorage::Flat { file, .. }) = self.extents[i].storage {
                files.push(file);
            }
            i += 1;
        }
        assert(self.extents@.take(i as int) =~= self.extents@);
        proof {
            assert forall|file: usize|
                #[trigger] files@.contains(file) <==> exists|i: int|
                    0 <= i < self@.len() && is_kept_in(#[trigger] self@[i], file) by {
                law_files_of_extents(self@, file);
            }
        }
        files
    }
}

} // verus!
