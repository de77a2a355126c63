//! A queue of requests to a disk, each of which is complete when it is made.

use crate::descriptor::VmdkAccess;
use crate::disk::{Chunk, Direction, ExtentStorage, TransferPlan, VmdkDisk, VmdkExtent};
use crate::error::{AsyncIoError, ErrorKind, VmdkError};
use crate::{disk, error};
use std::collections::VecDeque;
use std::sync::Arc;
use vstd::prelude::*;

verus! {

/// What a request with several buffers needs: transfers, to be carried out
/// buffer by buffer, and then what the request comes to if none of them fails.
#[derive(Debug)]
pub struct VectoredPlan {
    /// The transfers of each buffer that the request gets to.
    pub transfers: Vec<Vec<Chunk>>,
    /// The number of bytes transferred, or why the request goes no further.
    pub outcome: Result<u64, AsyncIoError>,
}

/// The view of a [`VectoredPlan`].
pub struct VectoredView {
    pub transfers: Seq<Seq<Chunk>>,
    pub outcome: Result<u64, error::AsyncIoFailure>,
}

/// A result with its error replaced by the error's view.
pub open spec fn seen_async<T>(result: Result<T, AsyncIoError>) -> Result<
    T,
    error::AsyncIoFailure,
> {
    match result {
        Ok(value) => Ok(value),
        Err(error) => Err(error@),
    }
}

/// The contents of vectors.
pub open spec fn contents(vectors: Seq<Vec<Chunk>>) -> Seq<Seq<Chunk>> {
    Seq::new(vectors.len(), |i: int| vectors[i]@)
}

impl View for VectoredPlan {
    type V = VectoredView;

    open spec fn view(&self) -> VectoredView {
        VectoredView {
            transfers: contents(self.transfers@),
            outcome: seen_async(self.outcome),
        }
    }
}

/// A failure of a request in the given direction.
pub open spec fn request_failure(
    direction: Direction,
    failure: error::Failure,
) -> error::AsyncIoFailure {
    match direction {
        Direction::Read => error::AsyncIoFailure::ReadVectored(failure),
        Direction::Write => error::AsyncIoFailure::WriteVectored(failure),
    }
}

fn request_error(direction: Direction, error: VmdkError) -> (wrapped: AsyncIoError)
    ensures
        wrapped@ == request_failure(direction, error@),
{
    match direction {
        Direction::Read => AsyncIoError::ReadVectored(error),
        Direction::Write => AsyncIoError::WriteVectored(error),
    }
}

/// The plan for the rest of a request: buffers of the lengths `lens`, from byte
/// `pos` of the disk on, where `total` bytes are dealt with. Each buffer goes on
/// where the one in front of it ended.
pub open spec fn rest_of_vectored(
    direction: Direction,
    extents: Seq<VmdkExtent>,
    pos: int,
    total: int,
    lens: Seq<usize>,
) -> VectoredView
    decreases lens.len(),
{
    if lens.len() == 0 {
        VectoredView { transfers: Seq::empty(), outcome: Ok(total as u64) }
    } else {
        let plan = disk::plan_of(direction, extents, pos, lens[0] as int);
        match plan.outcome {
            Err(failure) => VectoredView {
                transfers: seq![plan.chunks],
                outcome: Err(request_failure(direction, failure)),
            },
            Ok(n) => {
                let rest = rest_of_vectored(
                    direction,
                    extents,
                    pos + n,
                    total + n,
                    lens.drop_first(),
                );
                VectoredView {
                    transfers: seq![plan.chunks] + rest.transfers,
                    outcome: rest.outcome,
                }
            },
        }
    }
}

/// The failure of a request in front of the disk.
pub open spec fn negative_offset(direction: Direction) -> error::Failure {
    error::Failure {
        kind: ErrorKind::InvalidInput,
        message: match direction {
            Direction::Read => "negative read offset"@,
            Direction::Write => "negative write offset"@,
        },
    }
}

/// The plan for a request: buffers of the lengths `lens`, from byte `offset` of
/// the disk on.
pub open spec fn vectored_plan_of(
    direction: Direction,
    extents: Seq<VmdkExtent>,
    offset: int,
    lens: Seq<usize>,
) -> VectoredView {
    if offset < 0 {
        VectoredView {
            transfers: Seq::empty(),
            outcome: Err(request_failure(direction, negative_offset(direction))),
        }
    } else {
        rest_of_vectored(direction, extents, offset, 0, lens)
    }
}

/// A queue of requests to a disk.
#[derive(Debug)]
pub struct VmdkSync {
    disk: Arc<VmdkDisk>,
    completion_list: VecDeque<(u64, i32)>,
}

/// The view of a [`VmdkSync`].
pub struct QueueView {
    /// The extents of the disk.
    pub disk: Seq<VmdkExtent>,
    /// The requests that are complete and not yet taken out, the oldest first:
    /// the caller's name for each, and what it came to.
    pub completed: Seq<(u64, i32)>,
}

impl View for VmdkSync {
    type V = QueueView;

    closed spec fn view(&self) -> QueueView {
        QueueView { disk: self.disk@, completed: self.completion_list@ }
    }
}

/// A queue with one more request that is complete.
pub open spec fn completing(queue: QueueView, user_data: u64, result: i32) -> QueueView {
    QueueView { completed: queue.completed.push((user_data, result)), ..queue }
}

impl VmdkSync {
    /// A queue without requests.
    pub fn new(disk: Arc<VmdkDisk>) -> (queue: VmdkSync)
        ensures
            queue@ == (QueueView { disk: disk@, completed: Seq::empty() }),
    {
        VmdkSync { disk, completion_list: VecDeque::new() }
    }

    fn plan_vectored(direction: Direction, disk: &VmdkDisk, offset: i64, lens: &[usize]) -> (plan:
        VectoredPlan)
        ensures
            plan@ == vectored_plan_of(direction, disk@, offset as int, lens@),
    {
        let mut transfers: Vec<Vec<Chunk>> = Vec::new();
        assert(contents(transfers@) =~= Seq::empty());
        if offset < 0 {
            let message = match direction {
                Direction::Read => "negative read offset",
                Direction::Write => "negative write offset",
            };
            let error = VmdkError::new(ErrorKind::InvalidInput, message);
            return VectoredPlan { transfers, outcome: Err(request_error(direction, error)) };
        }
        let ghost whole = rest_of_vectored(direction, disk@, offset as int, 0, lens@);
        let mut pos: u64 = offset as u64;
        let mut total: u64 = 0;
        let mut i: usize = 0;
        assert(lens@.skip(0) =~= lens@);
        while i < lens.len()
            invariant
                i <= lens@.len(),
                offset >= 0,
                pos == offset + total,
                whole == vectored_plan_of(direction, disk@, offset as int, lens@),
                whole.transfers == contents(transfers@) + rest_of_vectored(
                    direction,
                    disk@,
                    pos as int,
                    total as int,
                    lens@.skip(i as int),
                ).transfers,
                whole.outcome == rest_of_vectored(
                    direction,
                    disk@,
                    pos as int,
                    total as int,
                    lens@.skip(i as int),
                ).outcome,
            decreases lens@.len() - i,
        {
            let ghost left = lens@.skip(i as int);
            let ghost before = transfers@;
            assert(left.drop_first() =~= lens@.skip(i + 1));
            let TransferPlan { chunks, outcome } = match direction {
                Direction::Read => disk.read_into_slice(pos, lens[i]),
                Direction::Write => disk.write_from_slice(pos, lens[i]),
            };
            transfers.push(chunks);
            assert(contents(transfers@) =~= contents(before).push(chunks@));
            match outcome {
                Ok(n) => {
                    proof {
                        disk::lemma_plan_outcome(
                            direction,
                            disk@,
                            pos as int,
                            lens[i as int] as int,
                        );
                        let rest = rest_of_vectored(
                            direction,
                            disk@,
                            pos + n,
                            total + n,
                            left.drop_first(),
                        ).transfers;
                        assert(contents(before) + (seq![chunks@] + rest) =~= contents(transfers@)
                            + rest);
                    }
                    pos += n as u64;
                    total += n as u64;
                },
                Err(error) => {
                    assert(whole.transfers =~= contents(transfers@));
                    return VectoredPlan {
                        transfers,
                        outcome: Err(request_error(direction, error)),
                    };
                },
            }
            i += 1;
        }
        assert(whole.transfers =~= contents(transfers@));
        VectoredPlan { transfers, outcome: Ok(total) }
    }

    /// Plans a read from byte `offset` of the disk into buffers of the lengths
    /// `lens`.
    pub fn read_vectored(&self, offset: i64, lens: &[usize]) -> (plan: VectoredPlan)
        ensures
            plan@ == vectored_plan_of(Direction::Read, self@.disk, offset as int, lens@),
    {
        VmdkSync::plan_vectored(Direction::Read, &self.disk, offset, lens)
    }

    /// Plans a write from buffers of the lengths `lens` to byte `offset` of the
    /// disk.
    pub fn write_vectored(&self, offset: i64, lens: &[usize]) -> (plan: VectoredPlan)
        ensures
            plan@ == vectored_plan_of(Direction::Write, self@.disk, offset as int, lens@),
    {
        VmdkSync::plan_vectored(Direction::Write, &self.disk, offset, lens)
    }

    /// Records what a request came to once its transfers are carried out. The
    /// number of bytes is kept modulo 2^32, as a signed number.
    pub fn finish(&mut self, user_data: u64, outcome: Result<u64, AsyncIoError>) -> (verdict:
        Result<(), AsyncIoError>)
        ensures
            match outcome {
                Ok(total) => {
                    &&& verdict is Ok
                    &&& final(self)@ == completing(old(self)@, user_data, total as i32)
                    &&& final(self)@.completed == old(self)@.completed.push(
                        (user_data, total as i32),
                    )
                    &&& final(self)@.disk == old(self)@.disk
                    &&& total <= i32::MAX ==> final(self)@.completed.last().1 == total
                },
                Err(error) => {
                    &&& verdict == Err::<(), AsyncIoError>(error)
                    &&& final(self)@ == old(self)@
                },
            },
    {
        match outcome {
            Ok(total) => {
                self.completion_list.push_back((user_data, total as i32));
                Ok(())
            },
            Err(error) => Err(error),
        }
    }

    /// Records that the files of the disk were brought to stable storage, where
    /// the request has a name. Whether anything was recorded is the answer;
    /// nothing is where a file failed.
    pub fn fsync(&mut self, synced: Result<(), VmdkError>, user_data: Option<u64>) -> (recorded:
        Result<bool, AsyncIoError>)
        ensures
            seen_async(recorded) == match synced {
                Ok(_) => Ok(user_data is Some),
                Err(error) => Err(error::AsyncIoFailure::Fsync(error@)),
            },
            final(self)@ == match (synced, user_data) {
                (Ok(_), Some(user_data)) => completing(old(self)@, user_data, 0),
                _ => old(self)@,
            },
            final(self)@.disk == old(self)@.disk,
            final(self)@.completed == match (synced, user_data) {
                (Ok(_), Some(user_data)) => old(self)@.completed.push((user_data, 0i32)),
                _ => old(self)@.completed,
            },
    {
        match synced {
            Ok(_) => match user_data {
                Some(user_data) => {
                    self.completion_list.push_back((user_data, 0));
                    Ok(true)
                },
                None => Ok(false),
            },
            Err(error) => Err(AsyncIoError::Fsync(error)),
        }
    }

    /// Takes out the request that has been complete for the longest.
    pub fn next_completed_request(&mut self) -> (request: Option<(u64, i32)>)
        ensures
            match request {
                Some(request) => {
                    &&& old(self)@.completed.len() > 0
                    &&& request == old(self)@.completed[0]
                    &&& final(self)@.completed == old(self)@.completed.drop_first()
                },
                None => old(self)@.completed.len() == 0 && final(self)@.completed.len() == 0,
            },
            final(self)@.disk == old(self)@.disk,
    {
        self.completion_list.pop_front()
    }

    /// Refuses to give up the space of a range.
    pub fn punch_hole(&mut self, _offset: u64, _length: u64, _user_data: u64) -> (refusal: Result<
        (),
        AsyncIoError,
    >)
        ensures
            final(self)@ == old(self)@,
            seen_async(refusal) == Err::<(), _>(
                error::AsyncIoFailure::PunchHole(
                    error::Failure {
                        kind: ErrorKind::Other,
                        message: "punch_hole not supported for VMDK"@,
                    },
                ),
            ),
    {
        Err(
            AsyncIoError::PunchHole(
                VmdkError::new(ErrorKind::Other, "punch_hole not supported for VMDK"),
            ),
        )
    }

    /// Refuses to fill a range with zeroes.
    pub fn write_zeroes(&mut self, _offset: u64, _length: u64, _user_data: u64) -> (refusal: Result<
        (),
        AsyncIoError,
    >)
        ensures
            final(self)@ == old(self)@,
            seen_async(refusal) == Err::<(), _>(
                error::AsyncIoFailure::WriteZeroes(
                    error::Failure {
                        kind: ErrorKind::Other,
                        message: "write_zeroes not supported for VMDK"@,
                    },
                ),
            ),
    {
        Err(
            AsyncIoError::WriteZeroes(
                VmdkError::new(ErrorKind::Other, "write_zeroes not supported for VMDK"),
            ),
        )
    }
}

proof fn lemma_vectored_shifted(
    direction: Direction,
    extents: Seq<VmdkExtent>,
    pos: int,
    total: int,
    lens: Seq<usize>,
)
    requires
        0 <= pos,
        0 <= total,
        total <= u64::MAX,
        total + (disk::disk_size(extents) - pos) <= u64::MAX,
    ensures
        ({
            let plan = rest_of_vectored(direction, extents, pos, total, lens);
            let alone = rest_of_vectored(direction, extents, pos, 0, lens);
            &&& plan.transfers == alone.transfers
            &&& match alone.outcome {
                Ok(n) => {
                    &&& plan.outcome matches Ok(m) && m == total + n
                    &&& n == 0 || pos + n <= disk::disk_size(extents)
                },
                Err(failure) => plan.outcome == Err::<u64, error::AsyncIoFailure>(failure),
            }
        }),
    decreases lens.len(),
{
    if lens.len() > 0 {
        disk::lemma_plan_outcome(direction, extents, pos, lens[0] as int);
        let plan = disk::plan_of(direction, extents, pos, lens[0] as int);
        if let Ok(n) = plan.outcome {
            lemma_vectored_shifted(direction, extents, pos + n, total + n, lens.drop_first());
            lemma_vectored_shifted(direction, extents, pos + n, n as int, lens.drop_first());
        }
    }
}

/// A request deals with its first buffer as a request of that buffer alone would, and with
/// the others as a request that goes on where the first buffer ended. A buffer that fails
/// is the last.
pub proof fn law_vectored_step(
    direction: Direction,
    extents: Seq<VmdkExtent>,
    offset: int,
    len: usize,
    lens: Seq<usize>,
)
    requires
        0 <= offset,
    ensures
        ({
            let whole = vectored_plan_of(direction, extents, offset, seq![len] + lens);
            let first = disk::plan_of(direction, extents, offset, len as int);
            match first.outcome {
                Ok(n) => {
                    let rest = vectored_plan_of(direction, extents, offset + n, lens);
                    &&& whole.transfers == seq![first.chunks] + rest.transfers
                    &&& match rest.outcome {
                        Ok(m) => whole.outcome matches Ok(total) && total == n + m,
                        Err(failure) => whole.outcome == Err::<u64, error::AsyncIoFailure>(failure),
                    }
                },
                Err(failure) => {
                    &&& whole.transfers == seq![first.chunks]
                    &&& whole.outcome == Err::<u64, error::AsyncIoFailure>(
                        if direction == Direction::Read {
                            error::AsyncIoFailure::ReadVectored(failure)
                        } else {
                            error::AsyncIoFailure::WriteVectored(failure)
                        },
                    )
                },
            }
        }),
        vectored_plan_of(direction, extents, offset, Seq::empty()).outcome == Ok::<
            u64,
            error::AsyncIoFailure,
        >(0),
        vectored_plan_of(direction, extents, offset, Seq::empty()).transfers.len() == 0,
{
    let all = seq![len] + lens;
    assert(all.drop_first() =~= lens);
    assert(all[0] == len);
    disk::lemma_plan_outcome(direction, extents, offset, len as int);
    if let Ok(n) = disk::plan_of(direction, extents, offset, len as int).outcome {
        lemma_vectored_shifted(direction, extents, offset + n, n as int, lens);
    }
}

/// A request in front of the disk fails and transfers nothing.
pub proof fn law_negative_offset(
    direction: Direction,
    extents: Seq<VmdkExtent>,
    offset: int,
    lens: Seq<usize>,
)
    requires
        offset < 0,
    ensures
        ({
            let plan = vectored_plan_of(direction, extents, offset, lens);
            &&& plan.transfers.len() == 0
            &&& plan.outcome == Err::<u64, error::AsyncIoFailure>(
                if direction == Direction::Read {
                    error::AsyncIoFailure::ReadVectored(
                        error::Failure {
                            kind: ErrorKind::InvalidInput,
                            message: "negative read offset"@,
                        },
                    )
                } else {
                    error::AsyncIoFailure::WriteVectored(
                        error::Failure {
                            kind: ErrorKind::InvalidInput,
                            message: "negative write offset"@,
                        },
                    )
                },
            )
        }),
{
}

/// The number of bytes in buffers of these lengths.
pub open spec fn total_len(lens: Seq<usize>) -> int
    decreases lens.len(),
{
    if lens.len() == 0 {
        0
    } else {
        lens[0] + total_len(lens.drop_first())
    }
}

proof fn lemma_total_len(lens: Seq<usize>)
    ensures
        0 <= total_len(lens),
    decreases lens.len(),
{
    if lens.len() > 0 {
        lemma_total_len(lens.drop_first());
    }
}

/// A request succeeds in full, however it is split into buffers, where it stays on the
/// disk and every extent that it meets permits it and has positions for all its bytes.
pub proof fn law_vectored_succeeds(
    direction: Direction,
    extents: Seq<VmdkExtent>,
    offset: int,
    lens: Seq<usize>,
)
    requires
        disk::end_to_end(extents),
        0 <= offset,
        offset + total_len(lens) <= disk::disk_size(extents),
        forall|i: int|
            0 <= i < extents.len() && disk::meets(#[trigger] extents[i], offset, total_len(lens))
                ==> {
                let extent = extents[i];
                &&& extent.access != VmdkAccess::NoAccess
                &&& extent.storage is Some
                &&& direction == Direction::Write ==> extent.access == VmdkAccess::ReadWrite
                    && extent.storage != Some(ExtentStorage::Zero)
                &&& extent.storage matches Some(ExtentStorage::Flat { offset: base, .. }) ==> base
                    + (extent.disk_range.end - extent.disk_range.start) <= u64::MAX
            },
    ensures
        ({
            let plan = vectored_plan_of(direction, extents, offset, lens);
            &&& plan.outcome matches Ok(total) && total == total_len(lens)
            &&& plan.transfers.len() == lens.len()
        }),
    decreases lens.len(),
{
    if lens.len() == 0 {
        law_vectored_step(direction, extents, offset, 0, lens);
        assert(lens =~= Seq::empty());
    } else {
        let len = lens[0];
        let rest = lens.drop_first();
        assert(lens =~= seq![len] + rest);
        lemma_total_len(rest);
        law_vectored_step(direction, extents, offset, len, rest);
        assert forall|i: int|
            0 <= i < extents.len() && disk::meets(#[trigger] extents[i], offset, len as int)
                implies disk::meets(extents[i], offset, total_len(lens)) by {}
        if offset < disk::disk_size(extents) {
            match direction {
                Direction::Read => disk::law_read_succeeds(extents, offset, len as int),
                Direction::Write => disk::law_write_succeeds(extents, offset, len as int),
            }
        } else {
            disk::law_requests_at_the_end(direction, extents, offset, len as int);
        }
        assert forall|i: int|
            0 <= i < extents.len() && disk::meets(
                #[trigger] extents[i],
                offset + len,
                total_len(rest),
            ) implies disk::meets(extents[i], offset, total_len(lens)) by {}
        law_vectored_succeeds(direction, extents, offset + len, rest);
    }
}

/// A queue after `n` requests were taken out.
pub open spec fn after_taking(queue: Seq<(u64, i32)>, n: nat) -> Seq<(u64, i32)>
    decreases n,
{
    if n == 0 {
        queue
    } else {
        after_taking(queue, (n - 1) as nat).drop_first()
    }
}

/// Requests are taken out in the order in which they were completed, also those
/// that are completed in between.
pub proof fn law_completions_in_order(
    queue: Seq<(u64, i32)>,
    later: Seq<(u64, i32)>,
    n: nat,
)
    requires
        n < queue.len() + later.len(),
    ensures
        n <= queue.len() ==> after_taking(queue, n) + later == after_taking(queue + later, n),
        after_taking(queue + later, n)[0] == (queue + later)[n as int],
{
    lemma_after_taking(queue + later, n);
    if n <= queue.len() {
        lemma_after_taking(queue, n);
        assert(queue.skip(n as int) + later =~= (queue + later).skip(n as int));
    }
}

proof fn lemma_after_taking(queue: Seq<(u64, i32)>, n: nat)
    requires
        n <= queue.len(),
    ensures
        after_taking(queue, n) == queue.skip(n as int),
    decreases n,
{
    if n == 0 {
        assert(queue.skip(0) =~= queue);
    } else {
        lemma_after_taking(queue, (n - 1) as nat);
        assert(queue.skip(n - 1).drop_first() =~= queue.skip(n as int));
    }
}

} // verus!
