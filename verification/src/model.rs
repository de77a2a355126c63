//! What the plans of a disk do to the files behind it, byte by byte.
//!
//! The files are modelled as a store, a map from places to bytes. A place is a
//! file and a position in it. Files that were opened twice have two numbers and
//! one identity, which `identity` gives. Carrying out a plan is a function on the
//! store and the buffers; the laws below say what plans amount to, and what a
//! write that fails further on leaves behind.

use crate::disk::{Chunk, Direction, ExtentStorage, Target, VmdkExtent};
use crate::{disk, sync};
use vstd::prelude::*;

verus! {

/// A file's identity and a position in it.
pub type Place = (int, int);

/// The bytes of files. A place behind the end of its file has none.
pub type Store = Map<Place, u8>;

/// Gives the identity of the file with a number.
pub type Identity = spec_fn(usize) -> int;

/// The place where the byte of the disk at `offset` is kept.
pub open spec fn place_of(
    identity: Identity,
    extents: Seq<VmdkExtent>,
    offset: int,
) -> Option<Place> {
    let i = disk::extent_index(extents, offset);
    if disk::is_extent_at(extents, offset, i) {
        match extents[i].storage {
            Some(ExtentStorage::Flat { file, offset: first }) => Some(
                (identity(file), first + (offset - extents[i].disk_range.start)),
            ),
            _ => None,
        }
    } else {
        None
    }
}

/// The byte of the disk at `offset`, where there is one.
pub open spec fn disk_byte(
    store: Store,
    identity: Identity,
    extents: Seq<VmdkExtent>,
    offset: int,
) -> Option<u8> {
    let i = disk::extent_index(extents, offset);
    if disk::is_extent_at(extents, offset, i) && extents[i].storage == Some(ExtentStorage::Zero) {
        Some(0)
    } else {
        match place_of(identity, extents, offset) {
            Some(place) if store.contains_key(place) => Some(store[place]),
            _ => None,
        }
    }
}

/// The store after a transfer from `buffer`.
pub open spec fn chunk_written(
    store: Store,
    identity: Identity,
    chunk: Chunk,
    buffer: Seq<u8>,
) -> Store {
    match chunk.target {
        Target::File { file, offset } => store.union_prefer_right(
            Map::new(
                |place: Place|
                    place.0 == identity(file) && offset <= place.1 < offset + chunk.len,
                |place: Place| buffer[chunk.start + (place.1 - offset)],
            ),
        ),
        Target::Zero => store,
    }
}

/// The store after transfers from `buffer`, in order.
pub open spec fn written(
    store: Store,
    identity: Identity,
    chunks: Seq<Chunk>,
    buffer: Seq<u8>,
) -> Store
    decreases chunks.len(),
{
    if chunks.len() == 0 {
        store
    } else {
        written(
            chunk_written(store, identity, chunks[0], buffer),
            identity,
            chunks.drop_first(),
            buffer,
        )
    }
}

/// The store after the transfers of several buffers, in order.
pub open spec fn vectored_written(
    store: Store,
    identity: Identity,
    transfers: Seq<Seq<Chunk>>,
    buffers: Seq<Seq<u8>>,
) -> Store
    decreases transfers.len(),
{
    if transfers.len() == 0 {
        store
    } else {
        vectored_written(
            written(store, identity, transfers[0], buffers[0]),
            identity,
            transfers.drop_first(),
            buffers.drop_first(),
        )
    }
}

/// `buffer` after a transfer to it.
pub open spec fn chunk_read(
    store: Store,
    identity: Identity,
    chunk: Chunk,
    buffer: Seq<u8>,
) -> Seq<u8> {
    Seq::new(
        buffer.len(),
        |i: int|
            if chunk.start <= i < chunk.start + chunk.len {
                match chunk.target {
                    Target::File { file, offset } => store[(
                        identity(file),
                        offset + (i - chunk.start),
                    )],
                    Target::Zero => 0,
                }
            } else {
                buffer[i]
            },
    )
}

/// `buffer` after transfers to it, in order.
pub open spec fn read(
    store: Store,
    identity: Identity,
    chunks: Seq<Chunk>,
    buffer: Seq<u8>,
) -> Seq<u8>
    decreases chunks.len(),
{
    if chunks.len() == 0 {
        buffer
    } else {
        read(
            store,
            identity,
            chunks.drop_first(),
            chunk_read(store, identity, chunks[0], buffer),
        )
    }
}

/// Buffers after the transfers to them. A buffer that the request does not get
/// to stays as it is.
pub open spec fn vectored_read(
    store: Store,
    identity: Identity,
    transfers: Seq<Seq<Chunk>>,
    buffers: Seq<Seq<u8>>,
) -> Seq<Seq<u8>>
    decreases transfers.len(),
{
    if transfers.len() == 0 || buffers.len() == 0 {
        buffers
    } else {
        seq![read(store, identity, transfers[0], buffers[0])] + vectored_read(
            store,
            identity,
            transfers.drop_first(),
            buffers.drop_first(),
        )
    }
}

/// The lengths of buffers.
pub open spec fn lengths(buffers: Seq<Seq<u8>>) -> Seq<usize> {
    Seq::new(buffers.len(), |i: int| buffers[i].len() as usize)
}

/// Whether buffers are no longer than memory allows.
pub open spec fn fit_in_memory(buffers: Seq<Seq<u8>>) -> bool {
    forall|i: int| 0 <= i < buffers.len() ==> (#[trigger] buffers[i]).len() <= usize::MAX
}

/// Whether byte `i` of a request at `offset` is kept at `place`.
pub open spec fn lands_at(
    identity: Identity,
    extents: Seq<VmdkExtent>,
    offset: int,
    len: int,
    i: int,
    place: Place,
) -> bool {
    0 <= i < len && place_of(identity, extents, offset + i) == Some(place)
}

/// Whether some byte of a request at `offset` is kept at `place`.
pub open spec fn touches(
    identity: Identity,
    extents: Seq<VmdkExtent>,
    offset: int,
    len: int,
    place: Place,
) -> bool {
    exists|i: int| lands_at(identity, extents, offset, len, i, place)
}

/// Whether `place` is left as a write of `data` at `offset` should leave it: it
/// has one of the bytes that were written to it, or what it had before.
pub open spec fn is_effect_at(
    identity: Identity,
    extents: Seq<VmdkExtent>,
    offset: int,
    data: Seq<u8>,
    before: Store,
    after: Store,
    place: Place,
) -> bool {
    if touches(identity, extents, offset, data.len() as int, place) {
        &&& after.contains_key(place)
        &&& exists|i: int|
            #[trigger] lands_at(identity, extents, offset, data.len() as int, i, place)
                && after[place] == data[i]
    } else {
        &&& after.contains_key(place) == before.contains_key(place)
        &&& after.contains_key(place) ==> after[place] == before[place]
    }
}

/// Two writes one behind the other are a write of both.
proof fn lemma_effects_compose(
    identity: Identity,
    extents: Seq<VmdkExtent>,
    offset: int,
    first: Seq<u8>,
    second: Seq<u8>,
    before: Store,
    between: Store,
    after: Store,
    place: Place,
)
    requires
        is_effect_at(identity, extents, offset, first, before, between, place),
        is_effect_at(
            identity,
            extents,
            offset + first.len(),
            second,
            between,
            after,
            place,
        ),
    ensures
        is_effect_at(identity, extents, offset, first + second, before, after, place),
{
    let n1 = first.len() as int;
    let n2 = second.len() as int;
    let n = n1 + n2;
    let both = first + second;
    if touches(identity, extents, offset + n1, n2, place) {
        let i = choose|i: int|
            #[trigger] lands_at(identity, extents, offset + n1, n2, i, place) && after[place]
                == second[i];
        assert(lands_at(identity, extents, offset, n, n1 + i, place));
        assert(both[n1 + i] == second[i]);
    } else if touches(identity, extents, offset, n1, place) {
        let i = choose|i: int|
            #[trigger] lands_at(identity, extents, offset, n1, i, place) && between[place]
                == first[i];
        assert(lands_at(identity, extents, offset, n, i, place));
        assert(both[i] == first[i]);
    } else if touches(identity, extents, offset, n, place) {
        let i = choose|i: int| lands_at(identity, extents, offset, n, i, place);
        if i < n1 {
            assert(lands_at(identity, extents, offset, n1, i, place));
        } else {
            assert(lands_at(identity, extents, offset + n1, n2, i - n1, place));
        }
    }
}

/// The bytes of an extent are kept one behind the other.
proof fn lemma_place_in_extent(
    identity: Identity,
    extents: Seq<VmdkExtent>,
    offset: int,
    i: int,
)
    requires
        disk::end_to_end(extents),
        disk::is_extent_at(extents, offset, i),
    ensures
        disk::extent_index(extents, offset) == i,
        place_of(identity, extents, offset) == match extents[i].storage {
            Some(ExtentStorage::Flat { file, offset: first }) => Some(
                (identity(file), first + (offset - extents[i].disk_range.start)),
            ),
            _ => None,
        },
{
    disk::lemma_extent_unique(extents, offset, i);
}

/// A transfer to an extent writes its bytes where the disk keeps them.
proof fn lemma_chunk_effect(
    store: Store,
    identity: Identity,
    extents: Seq<VmdkExtent>,
    offset: int,
    chunk: Chunk,
    buffer: Seq<u8>,
    place: Place,
)
    requires
        disk::end_to_end(extents),
        disk::is_extent_at(extents, offset, disk::extent_index(extents, offset)),
        ({
            let extent = extents[disk::extent_index(extents, offset)];
            &&& disk::write_target(extent, offset - extent.disk_range.start) == Ok::<
                Target,
                crate::error::Failure,
            >(chunk.target)
            &&& offset + chunk.len <= extent.disk_range.end
        }),
        chunk.start + chunk.len <= buffer.len(),
    ensures
        is_effect_at(
            identity,
            extents,
            offset,
            buffer.subrange(chunk.start as int, chunk.start + chunk.len),
            store,
            chunk_written(store, identity, chunk, buffer),
            place,
        ),
{
    let e = disk::extent_index(extents, offset);
    let n = chunk.len as int;
    let data = buffer.subrange(chunk.start as int, chunk.start + chunk.len);
    let after = chunk_written(store, identity, chunk, buffer);
    assert(chunk.target is File);
    let file = chunk.target->file;
    let first = chunk.target->offset;
    assert forall|i: int| 0 <= i < n implies #[trigger] place_of(identity, extents, offset + i)
        == Some((identity(file), first + i)) by {
        assert(disk::is_extent_at(extents, offset + i, e));
        lemma_place_in_extent(identity, extents, offset + i, e);
    }
    let at = place.1 - first;
    if place.0 == identity(file) && 0 <= at < n {
        assert(place_of(identity, extents, offset + at) == Some((identity(file), first + at)));
        assert(lands_at(identity, extents, offset, n, at, place));
        assert(after[place] == data[at]);
    } else {
        assert forall|i: int| !lands_at(identity, extents, offset, n, i, place) by {
            if 0 <= i < n {
                assert(place_of(identity, extents, offset + i) == Some(
                    (identity(file), first + i),
                ));
            }
        }
    }
}

/// The number of bytes of a buffer that transfers deal with, the first of them from
/// byte `start` on.
pub open spec fn reached(chunks: Seq<Chunk>, start: int) -> int {
    if chunks.len() == 0 {
        start
    } else {
        chunks.last().start + chunks.last().len
    }
}

/// The number of bytes of several buffers that transfers deal with.
pub open spec fn vectored_reached(transfers: Seq<Seq<Chunk>>) -> int
    decreases transfers.len(),
{
    if transfers.len() == 0 {
        0
    } else {
        reached(transfers[0], 0) + vectored_reached(transfers.drop_first())
    }
}

/// What the first transfer of a plan is.
proof fn lemma_first_chunk(
    direction: Direction,
    extents: Seq<VmdkExtent>,
    offset: int,
    start: int,
    len: int,
) -> (n: int)
    requires
        disk::end_to_end(extents),
        0 <= start,
        0 < len,
        start + len <= usize::MAX,
        ({
            let plan = disk::rest_of_plan(direction, extents, offset, start, len);
            plan.outcome is Ok || plan.chunks.len() > 0
        }),
    ensures
        0 < n <= len,
        disk::is_extent_at(extents, offset, disk::extent_index(extents, offset)),
        ({
            let plan = disk::rest_of_plan(direction, extents, offset, start, len);
            let rest = disk::rest_of_plan(direction, extents, offset + n, start + n, len - n);
            let extent = extents[disk::extent_index(extents, offset)];
            &&& plan.chunks.len() > 0
            &&& plan.chunks[0].start == start
            &&& plan.chunks[0].len == n
            &&& offset + n <= extent.disk_range.end
            &&& disk::target_at(direction, extent, offset - extent.disk_range.start) == Ok::<
                Target,
                crate::error::Failure,
            >(plan.chunks[0].target)
            &&& plan.chunks.drop_first() == rest.chunks
            &&& plan.outcome == rest.outcome
        }),
{
    let extent = extents[disk::extent_index(extents, offset)];
    let left = extent.disk_range.end - offset;
    let n = if left < len {
        left
    } else {
        len
    };
    let plan = disk::rest_of_plan(direction, extents, offset, start, len);
    let rest = disk::rest_of_plan(direction, extents, offset + n, start + n, len - n);
    assert(plan.chunks.drop_first() =~= rest.chunks);
    n
}

proof fn lemma_rest_written(
    store: Store,
    identity: Identity,
    extents: Seq<VmdkExtent>,
    offset: int,
    start: int,
    len: int,
    buffer: Seq<u8>,
    place: Place,
)
    requires
        disk::end_to_end(extents),
        0 <= start,
        0 <= len,
        start + len <= buffer.len() <= usize::MAX,
    ensures
        ({
            let plan = disk::rest_of_plan(Direction::Write, extents, offset, start, len);
            let end = reached(plan.chunks, start);
            &&& start <= end <= start + len
            &&& plan.outcome is Ok <==> end == start + len
            &&& is_effect_at(
                identity,
                extents,
                offset,
                buffer.subrange(start, end),
                store,
                written(store, identity, plan.chunks, buffer),
                place,
            )
        }),
    decreases len,
{
    let plan = disk::rest_of_plan(Direction::Write, extents, offset, start, len);
    let end = reached(plan.chunks, start);
    if plan.chunks.len() > 0 {
        let n = lemma_first_chunk(Direction::Write, extents, offset, start, len);
        let chunk = plan.chunks[0];
        let between = chunk_written(store, identity, chunk, buffer);
        let after = written(store, identity, plan.chunks, buffer);
        lemma_chunk_effect(store, identity, extents, offset, chunk, buffer, place);
        lemma_rest_written(
            between,
            identity,
            extents,
            offset + n,
            start + n,
            len - n,
            buffer,
            place,
        );
        let rest = disk::rest_of_plan(Direction::Write, extents, offset + n, start + n, len - n);
        if rest.chunks.len() > 0 {
            assert(plan.chunks.last() == rest.chunks.last());
        }
        let first = buffer.subrange(start, start + n);
        let second = buffer.subrange(start + n, end);
        lemma_effects_compose(
            identity,
            extents,
            offset,
            first,
            second,
            store,
            between,
            after,
            place,
        );
        assert(first + second =~= buffer.subrange(start, end));
    }
}

/// A write that is carried out puts every byte of the buffer where the disk keeps
/// the byte that it is for, and changes no other place.
pub proof fn law_write_effect(
    store: Store,
    identity: Identity,
    extents: Seq<VmdkExtent>,
    offset: int,
    buffer: Seq<u8>,
    place: Place,
)
    requires
        disk::end_to_end(extents),
        buffer.len() <= usize::MAX,
        disk::plan_of(Direction::Write, extents, offset, buffer.len() as int).outcome is Ok,
    ensures
        is_effect_at(
            identity,
            extents,
            offset,
            if offset < disk::disk_size(extents) {
                buffer
            } else {
                Seq::empty()
            },
            store,
            written(
                store,
                identity,
                disk::plan_of(Direction::Write, extents, offset, buffer.len() as int).chunks,
                buffer,
            ),
            place,
        ),
{
    if offset < disk::disk_size(extents) {
        lemma_rest_written(
            store,
            identity,
            extents,
            offset,
            0,
            buffer.len() as int,
            buffer,
            place,
        );
        assert(buffer.subrange(0, buffer.len() as int) =~= buffer);
    }
}

/// A write that fails further on is, so far, a write of the bytes that its transfers
/// deal with, which are not all of the buffer.
pub proof fn law_failed_write_effect(
    store: Store,
    identity: Identity,
    extents: Seq<VmdkExtent>,
    offset: int,
    buffer: Seq<u8>,
    place: Place,
)
    requires
        disk::end_to_end(extents),
        buffer.len() <= usize::MAX,
        disk::plan_of(Direction::Write, extents, offset, buffer.len() as int).outcome is Err,
    ensures
        ({
            let chunks = disk::plan_of(
                Direction::Write,
                extents,
                offset,
                buffer.len() as int,
            ).chunks;
            &&& 0 <= reached(chunks, 0) < buffer.len()
            &&& is_effect_at(
                identity,
                extents,
                offset,
                buffer.take(reached(chunks, 0)),
                store,
                written(store, identity, chunks, buffer),
                place,
            )
        }),
{
    lemma_rest_written(
        store,
        identity,
        extents,
        offset,
        0,
        buffer.len() as int,
        buffer,
        place,
    );
}

proof fn lemma_rest_read(
    store: Store,
    identity: Identity,
    extents: Seq<VmdkExtent>,
    offset: int,
    start: int,
    len: int,
    buffer: Seq<u8>,
)
    requires
        disk::end_to_end(extents),
        0 <= start,
        0 <= len,
        start + len <= buffer.len() <= usize::MAX,
        disk::rest_of_plan(Direction::Read, extents, offset, start, len).outcome is Ok,
        forall|i: int|
            0 <= i < len ==> #[trigger] disk_byte(store, identity, extents, offset + i) is Some,
    ensures
        ({
            let after = read(
                store,
                identity,
                disk::rest_of_plan(Direction::Read, extents, offset, start, len).chunks,
                buffer,
            );
            &&& after.len() == buffer.len()
            &&& forall|i: int|
                0 <= i < buffer.len() ==> #[trigger] after[i] == if start <= i < start + len {
                    disk_byte(store, identity, extents, offset + (i - start))->0
                } else {
                    buffer[i]
                }
        }),
    decreases len,
{
    let plan = disk::rest_of_plan(Direction::Read, extents, offset, start, len);
    if len > 0 {
        let n = lemma_first_chunk(Direction::Read, extents, offset, start, len);
        let chunk = plan.chunks[0];
        let e = disk::extent_index(extents, offset);
        let between = chunk_read(store, identity, chunk, buffer);
        assert forall|i: int| 0 <= i < len - n implies #[trigger] disk_byte(
            store,
            identity,
            extents,
            offset + n + i,
        ) is Some by {
            assert(disk_byte(store, identity, extents, offset + (n + i)) is Some);
        }
        lemma_rest_read(store, identity, extents, offset + n, start + n, len - n, between);
        let after = read(store, identity, plan.chunks, buffer);
        assert forall|i: int| 0 <= i < buffer.len() implies #[trigger] after[i] == (if start <= i
            < start + len {
            disk_byte(store, identity, extents, offset + (i - start))->0
        } else {
            buffer[i]
        }) by {
            if start <= i < start + n {
                let o = offset + (i - start);
                assert(disk::is_extent_at(extents, o, e));
                lemma_place_in_extent(identity, extents, o, e);
                assert(disk_byte(store, identity, extents, o) is Some);
                assert(after[i] == between[i]);
            } else if start + n <= i < start + len {
                assert(offset + n + (i - (start + n)) == offset + (i - start));
            }
        }
    }
}

/// A read that is carried out fills the buffer with the bytes of the disk.
pub proof fn law_read_effect(
    store: Store,
    identity: Identity,
    extents: Seq<VmdkExtent>,
    offset: int,
    buffer: Seq<u8>,
)
    requires
        disk::end_to_end(extents),
        buffer.len() <= usize::MAX,
        disk::plan_of(Direction::Read, extents, offset, buffer.len() as int).outcome is Ok,
        offset < disk::disk_size(extents) ==> forall|i: int|
            0 <= i < buffer.len() ==> #[trigger] disk_byte(store, identity, extents, offset + i)
                is Some,
    ensures
        ({
            let after = read(
                store,
                identity,
                disk::plan_of(Direction::Read, extents, offset, buffer.len() as int).chunks,
                buffer,
            );
            &&& after.len() == buffer.len()
            &&& offset < disk::disk_size(extents) ==> forall|i: int|
                0 <= i < buffer.len() ==> Some(#[trigger] after[i]) == disk_byte(
                    store,
                    identity,
                    extents,
                    offset + i,
                )
            &&& offset >= disk::disk_size(extents) ==> after == buffer
        }),
{
    if offset < disk::disk_size(extents) {
        lemma_rest_read(store, identity, extents, offset, 0, buffer.len() as int, buffer);
        let after = read(
            store,
            identity,
            disk::plan_of(Direction::Read, extents, offset, buffer.len() as int).chunks,
            buffer,
        );
        assert forall|i: int| 0 <= i < buffer.len() implies Some(#[trigger] after[i]) == disk_byte(
            store,
            identity,
            extents,
            offset + i,
        ) by {
            assert(disk_byte(store, identity, extents, offset + i) is Some);
            assert(offset + (i - 0) == offset + i);
        }
    }
}

/// A request with several buffers that is carried out deals with all bytes of the
/// buffers, or with those in front of the end of the disk.
proof fn lemma_vectored_total(
    direction: Direction,
    extents: Seq<VmdkExtent>,
    pos: int,
    total: int,
    buffers: Seq<Seq<u8>>,
)
    requires
        fit_in_memory(buffers),
        0 <= pos,
        0 <= total <= pos,
        pos - total <= i64::MAX,
        total == 0 || pos <= disk::disk_size(extents),
        sync::rest_of_vectored(direction, extents, pos, total, lengths(buffers)).outcome is Ok,
    ensures
        ({
            let plan = sync::rest_of_vectored(direction, extents, pos, total, lengths(buffers));
            let n = plan.outcome->Ok_0 - total;
            &&& plan.transfers.len() == buffers.len()
            &&& 0 <= n <= buffers.flatten().len()
            &&& n == 0 || pos + n <= disk::disk_size(extents)
            &&& pos >= disk::disk_size(extents) ==> n == 0
        }),
    decreases buffers.len(),
{
    let lens = lengths(buffers);
    if buffers.len() > 0 {
        let len = buffers[0].len();
        assert(lens[0] == len);
        disk::lemma_plan_outcome(direction, extents, pos, len as int);
        let n = disk::plan_of(direction, extents, pos, len as int).outcome->Ok_0;
        let rest = buffers.drop_first();
        assert(lens.drop_first() =~= lengths(rest));
        assert forall|i: int| 0 <= i < rest.len() implies (#[trigger] rest[i]).len()
            <= usize::MAX by {
            assert(rest[i] == buffers[i + 1]);
        }
        lemma_vectored_total(direction, extents, pos + n, total + n, rest);
        assert(buffers.flatten() =~= buffers[0] + rest.flatten());
    }
}

proof fn lemma_rest_vectored_written(
    store: Store,
    identity: Identity,
    extents: Seq<VmdkExtent>,
    pos: int,
    total: int,
    buffers: Seq<Seq<u8>>,
    place: Place,
)
    requires
        disk::end_to_end(extents),
        fit_in_memory(buffers),
        0 <= pos,
        0 <= total <= pos,
        pos - total <= i64::MAX,
        total == 0 || pos <= disk::disk_size(extents),
        sync::rest_of_vectored(
            Direction::Write,
            extents,
            pos,
            total,
            lengths(buffers),
        ).outcome is Ok,
    ensures
        ({
            let plan = sync::rest_of_vectored(
                Direction::Write,
                extents,
                pos,
                total,
                lengths(buffers),
            );
            is_effect_at(
                identity,
                extents,
                pos,
                buffers.flatten().take(plan.outcome->Ok_0 - total),
                store,
                vectored_written(store, identity, plan.transfers, buffers),
                place,
            )
        }),
    decreases buffers.len(),
{
    let lens = lengths(buffers);
    let plan = sync::rest_of_vectored(Direction::Write, extents, pos, total, lens);
    let end = plan.outcome->Ok_0;
    lemma_vectored_total(Direction::Write, extents, pos, total, buffers);
    if buffers.len() > 0 {
        let len = buffers[0].len();
        assert(lens[0] == len);
        disk::lemma_plan_outcome(Direction::Write, extents, pos, len as int);
        let one = disk::plan_of(Direction::Write, extents, pos, len as int);
        let n = one.outcome->Ok_0;
        let rest = buffers.drop_first();
        assert(lens.drop_first() =~= lengths(rest));
        assert forall|i: int| 0 <= i < rest.len() implies (#[trigger] rest[i]).len()
            <= usize::MAX by {
            assert(rest[i] == buffers[i + 1]);
        }
        let rest_plan = sync::rest_of_vectored(
            Direction::Write,
            extents,
            pos + n,
            total + n,
            lengths(rest),
        );
        assert(plan.transfers.drop_first() =~= rest_plan.transfers);
        assert(plan.transfers[0] == one.chunks);
        let between = written(store, identity, one.chunks, buffers[0]);
        let after = vectored_written(store, identity, plan.transfers, buffers);
        law_write_effect(store, identity, extents, pos, buffers[0], place);
        lemma_vectored_total(Direction::Write, extents, pos + n, total + n, rest);
        lemma_rest_vectored_written(
            between,
            identity,
            extents,
            pos + n,
            total + n,
            rest,
            place,
        );
        let first = if pos < disk::disk_size(extents) {
            buffers[0]
        } else {
            Seq::empty()
        };
        assert(first.len() == n);
        let second = rest.flatten().take(end - total - n);
        lemma_effects_compose(
            identity,
            extents,
            pos,
            first,
            second,
            store,
            between,
            after,
            place,
        );
        assert(buffers.flatten() =~= buffers[0] + rest.flatten());
        assert(first + second =~= buffers.flatten().take(end - total));
    } else {
        assert(buffers.flatten().take(0) =~= Seq::<u8>::empty());
    }
}

/// A write from several buffers that is carried out is a write of the buffers one
/// behind the other, up to the number of bytes that it comes to.
pub proof fn law_vectored_write_effect(
    store: Store,
    identity: Identity,
    extents: Seq<VmdkExtent>,
    offset: i64,
    buffers: Seq<Seq<u8>>,
    place: Place,
)
    requires
        disk::end_to_end(extents),
        fit_in_memory(buffers),
        sync::vectored_plan_of(
            Direction::Write,
            extents,
            offset as int,
            lengths(buffers),
        ).outcome is Ok,
    ensures
        ({
            let plan = sync::vectored_plan_of(
                Direction::Write,
                extents,
                offset as int,
                lengths(buffers),
            );
            &&& plan.outcome->Ok_0 <= buffers.flatten().len()
            &&& is_effect_at(
                identity,
                extents,
                offset as int,
                buffers.flatten().take(plan.outcome->Ok_0 as int),
                store,
                vectored_written(store, identity, plan.transfers, buffers),
                place,
            )
        }),
{
    lemma_vectored_total(Direction::Write, extents, offset as int, 0, buffers);
    lemma_rest_vectored_written(store, identity, extents, offset as int, 0, buffers, place);
}

proof fn lemma_rest_vectored_failed(
    store: Store,
    identity: Identity,
    extents: Seq<VmdkExtent>,
    pos: int,
    total: int,
    buffers: Seq<Seq<u8>>,
    place: Place,
)
    requires
        disk::end_to_end(extents),
        fit_in_memory(buffers),
        0 <= pos,
        sync::rest_of_vectored(
            Direction::Write,
            extents,
            pos,
            total,
            lengths(buffers),
        ).outcome is Err,
    ensures
        pos < disk::disk_size(extents),
        ({
            let transfers = sync::rest_of_vectored(
                Direction::Write,
                extents,
                pos,
                total,
                lengths(buffers),
            ).transfers;
            let end = vectored_reached(transfers);
            &&& 0 <= end < buffers.flatten().len()
            &&& is_effect_at(
                identity,
                extents,
                pos,
                buffers.flatten().take(end),
                store,
                vectored_written(store, identity, transfers, buffers),
                place,
            )
        }),
    decreases buffers.len(),
{
    let lens = lengths(buffers);
    let plan = sync::rest_of_vectored(Direction::Write, extents, pos, total, lens);
    let end = vectored_reached(plan.transfers);
    let len = buffers[0].len();
    assert(lens[0] == len);
    let one = disk::plan_of(Direction::Write, extents, pos, len as int);
    let rest = buffers.drop_first();
    assert(lens.drop_first() =~= lengths(rest));
    assert(buffers.flatten() =~= buffers[0] + rest.flatten());
    let between = written(store, identity, one.chunks, buffers[0]);
    let after = vectored_written(store, identity, plan.transfers, buffers);
    assert(plan.transfers[0] == one.chunks);
    match one.outcome {
        Err(_) => {
            law_failed_write_effect(store, identity, extents, pos, buffers[0], place);
            assert(plan.transfers.drop_first() =~= Seq::empty());
            assert(vectored_reached(plan.transfers.drop_first()) == 0);
            reveal_with_fuel(vectored_written, 2);
            assert(after == between);
            assert(buffers.flatten().take(end) =~= buffers[0].take(end));
        },
        Ok(n) => {
            assert forall|i: int| 0 <= i < rest.len() implies (#[trigger] rest[i]).len()
                <= usize::MAX by {
                assert(rest[i] == buffers[i + 1]);
            }
            let rest_plan = sync::rest_of_vectored(
                Direction::Write,
                extents,
                pos + n,
                total + n,
                lengths(rest),
            );
            assert(plan.transfers.drop_first() =~= rest_plan.transfers);
            disk::lemma_plan_outcome(Direction::Write, extents, pos, len as int);
            lemma_rest_vectored_failed(
                between,
                identity,
                extents,
                pos + n,
                total + n,
                rest,
                place,
            );
            law_write_effect(store, identity, extents, pos, buffers[0], place);
            lemma_rest_written(
                store,
                identity,
                extents,
                pos,
                0,
                len as int,
                buffers[0],
                place,
            );
            let second = rest.flatten().take(vectored_reached(rest_plan.transfers));
            lemma_effects_compose(
                identity,
                extents,
                pos,
                buffers[0],
                second,
                store,
                between,
                after,
                place,
            );
            assert(buffers[0] + second =~= buffers.flatten().take(end));
        },
    }
}

/// A write from several buffers that fails further on is, so far, a write of the
/// bytes that its transfers deal with: a part of the buffers one behind the other,
/// from their first byte on, and not all of them.
pub proof fn law_failed_vectored_write_effect(
    store: Store,
    identity: Identity,
    extents: Seq<VmdkExtent>,
    offset: i64,
    buffers: Seq<Seq<u8>>,
    place: Place,
)
    requires
        disk::end_to_end(extents),
        fit_in_memory(buffers),
        sync::vectored_plan_of(
            Direction::Write,
            extents,
            offset as int,
            lengths(buffers),
        ).outcome is Err,
    ensures
        ({
            let transfers = sync::vectored_plan_of(
                Direction::Write,
                extents,
                offset as int,
                lengths(buffers),
            ).transfers;
            let end = vectored_reached(transfers);
            &&& 0 <= end <= buffers.flatten().len()
            &&& offset >= 0 ==> end < buffers.flatten().len()
            &&& is_effect_at(
                identity,
                extents,
                offset as int,
                buffers.flatten().take(end),
                store,
                vectored_written(store, identity, transfers, buffers),
                place,
            )
        }),
{
    if offset >= 0 {
        lemma_rest_vectored_failed(store, identity, extents, offset as int, 0, buffers, place);
    }
}

#[verifier::spinoff_prover]
#[verifier::rlimit(40)]
proof fn lemma_rest_vectored_read(
    store: Store,
    identity: Identity,
    extents: Seq<VmdkExtent>,
    pos: int,
    total: int,
    buffers: Seq<Seq<u8>>,
)
    requires
        disk::end_to_end(extents),
        fit_in_memory(buffers),
        0 <= pos,
        0 <= total <= pos,
        pos - total <= i64::MAX,
        total == 0 || pos <= disk::disk_size(extents),
        sync::rest_of_vectored(
            Direction::Read,
            extents,
            pos,
            total,
            lengths(buffers),
        ).outcome is Ok,
        forall|i: int|
            0 <= i < sync::rest_of_vectored(
                Direction::Read,
                extents,
                pos,
                total,
                lengths(buffers),
            ).outcome->Ok_0 - total ==> #[trigger] disk_byte(store, identity, extents, pos + i)
                is Some,
    ensures
        ({
            let plan = sync::rest_of_vectored(
                Direction::Read,
                extents,
                pos,
                total,
                lengths(buffers),
            );
            let n = plan.outcome->Ok_0 - total;
            let after = vectored_read(store, identity, plan.transfers, buffers);
            &&& lengths(after) == lengths(buffers)
            &&& after.flatten().len() == buffers.flatten().len()
            &&& forall|i: int|
                0 <= i < after.flatten().len() ==> #[trigger] after.flatten()[i] == if i < n {
                    disk_byte(store, identity, extents, pos + i)->0
                } else {
                    buffers.flatten()[i]
                }
        }),
    decreases buffers.len(),
{
    let lens = lengths(buffers);
    let plan = sync::rest_of_vectored(Direction::Read, extents, pos, total, lens);
    lemma_vectored_total(Direction::Read, extents, pos, total, buffers);
    if buffers.len() > 0 {
        let len = buffers[0].len();
        assert(lens[0] == len);
        disk::lemma_plan_outcome(Direction::Read, extents, pos, len as int);
        let one = disk::plan_of(Direction::Read, extents, pos, len as int);
        let n = one.outcome->Ok_0;
        let rest = buffers.drop_first();
        assert(lens.drop_first() =~= lengths(rest));
        assert forall|i: int| 0 <= i < rest.len() implies (#[trigger] rest[i]).len()
            <= usize::MAX by {
            assert(rest[i] == buffers[i + 1]);
        }
        let rest_plan = sync::rest_of_vectored(
            Direction::Read,
            extents,
            pos + n,
            total + n,
            lengths(rest),
        );
        assert(plan.transfers.drop_first() =~= rest_plan.transfers);
        assert(plan.transfers[0] == one.chunks);
        lemma_vectored_total(Direction::Read, extents, pos + n, total + n, rest);
        assert forall|i: int| 0 <= i < plan.outcome->Ok_0 - total - n implies #[trigger] disk_byte(
            store,
            identity,
            extents,
            pos + n + i,
        ) is Some by {
            assert(disk_byte(store, identity, extents, pos + (n + i)) is Some);
        }
        law_read_effect(store, identity, extents, pos, buffers[0]);
        lemma_rest_vectored_read(store, identity, extents, pos + n, total + n, rest);
        let first = read(store, identity, one.chunks, buffers[0]);
        let later = vectored_read(store, identity, rest_plan.transfers, rest);
        let after = vectored_read(store, identity, plan.transfers, buffers);
        assert(after == seq![first] + later);
        assert(after.drop_first() =~= later);
        assert(after.flatten() =~= first + later.flatten());
        assert(buffers.flatten() =~= buffers[0] + rest.flatten());
        assert(lengths(after) =~= lengths(buffers)) by {
            assert forall|i: int| 0 <= i < lengths(buffers).len() implies lengths(after)[i]
                == lengths(buffers)[i] by {
                if i > 0 {
                    assert(lengths(later)[i - 1] == lengths(rest)[i - 1]);
                }
            }
            assert(lengths(later).len() == lengths(rest).len());
        }
        assert forall|i: int| 0 <= i < after.flatten().len() implies #[trigger] after.flatten()[i]
            == (if i < plan.outcome->Ok_0 - total {
            disk_byte(store, identity, extents, pos + i)->0
        } else {
            buffers.flatten()[i]
        }) by {
            if i < len {
                assert(after.flatten()[i] == first[i]);
                if pos < disk::disk_size(extents) {
                    assert(Some(first[i]) == disk_byte(store, identity, extents, pos + i));
                }
            } else {
                assert(after.flatten()[i] == later.flatten()[i - len]);
                assert(pos + n + (i - n) == pos + i);
            }
        }
    }
}

/// A read to several buffers that is carried out fills them, one behind the other,
/// with the bytes of the disk, up to the number of bytes that it comes to. The
/// rest stays as it is.
pub proof fn law_vectored_read_effect(
    store: Store,
    identity: Identity,
    extents: Seq<VmdkExtent>,
    offset: i64,
    buffers: Seq<Seq<u8>>,
)
    requires
        disk::end_to_end(extents),
        fit_in_memory(buffers),
        sync::vectored_plan_of(
            Direction::Read,
            extents,
            offset as int,
            lengths(buffers),
        ).outcome is Ok,
        forall|i: int|
            0 <= i < sync::vectored_plan_of(
                Direction::Read,
                extents,
                offset as int,
                lengths(buffers),
            ).outcome->Ok_0 ==> #[trigger] disk_byte(store, identity, extents, offset + i) is Some,
    ensures
        ({
            let plan = sync::vectored_plan_of(
                Direction::Read,
                extents,
                offset as int,
                lengths(buffers),
            );
            let after = vectored_read(store, identity, plan.transfers, buffers);
            &&& lengths(after) == lengths(buffers)
            &&& after.flatten().len() == buffers.flatten().len()
            &&& forall|i: int|
                0 <= i < after.flatten().len() ==> #[trigger] after.flatten()[i] == if i
                    < plan.outcome->Ok_0 {
                    disk_byte(store, identity, extents, offset + i)->0
                } else {
                    buffers.flatten()[i]
                }
        }),
{
    lemma_rest_vectored_read(store, identity, extents, offset as int, 0, buffers);
}

proof fn lemma_rest_places(
    identity: Identity,
    extents: Seq<VmdkExtent>,
    offset: int,
    start: int,
    len: int,
    i: int,
)
    requires
        disk::end_to_end(extents),
        0 <= start,
        0 <= i < len,
        start + len <= usize::MAX,
        disk::rest_of_plan(Direction::Write, extents, offset, start, len).outcome is Ok,
    ensures
        place_of(identity, extents, offset + i) is Some,
    decreases len,
{
    let n = lemma_first_chunk(Direction::Write, extents, offset, start, len);
    if i < n {
        let e = disk::extent_index(extents, offset);
        assert(disk::is_extent_at(extents, offset + i, e));
        lemma_place_in_extent(identity, extents, offset + i, e);
    } else {
        lemma_rest_places(identity, extents, offset + n, start + n, len - n, i - n);
    }
}

proof fn lemma_vectored_places(
    identity: Identity,
    extents: Seq<VmdkExtent>,
    pos: int,
    total: int,
    buffers: Seq<Seq<u8>>,
    i: int,
)
    requires
        disk::end_to_end(extents),
        fit_in_memory(buffers),
        0 <= pos,
        0 <= total <= pos,
        pos - total <= i64::MAX,
        total == 0 || pos <= disk::disk_size(extents),
        sync::rest_of_vectored(
            Direction::Write,
            extents,
            pos,
            total,
            lengths(buffers),
        ).outcome is Ok,
        0 <= i < sync::rest_of_vectored(
            Direction::Write,
            extents,
            pos,
            total,
            lengths(buffers),
        ).outcome->Ok_0 - total,
    ensures
        place_of(identity, extents, pos + i) is Some,
    decreases buffers.len(),
{
    let lens = lengths(buffers);
    lemma_vectored_total(Direction::Write, extents, pos, total, buffers);
    if buffers.len() > 0 {
        let len = buffers[0].len();
        assert(lens[0] == len);
        disk::lemma_plan_outcome(Direction::Write, extents, pos, len as int);
        let n = disk::plan_of(Direction::Write, extents, pos, len as int).outcome->Ok_0;
        let rest = buffers.drop_first();
        assert(lens.drop_first() =~= lengths(rest));
        assert forall|i: int| 0 <= i < rest.len() implies (#[trigger] rest[i]).len()
            <= usize::MAX by {
            assert(rest[i] == buffers[i + 1]);
        }
        if i < n {
            lemma_rest_places(identity, extents, pos, 0, len as int, i);
        } else {
            lemma_vectored_places(identity, extents, pos + n, total + n, rest, i - n);
        }
    }
}

/// Whether bytes of a request at `offset` that are kept at one place are given one
/// value.
pub open spec fn agrees_with_itself(
    identity: Identity,
    extents: Seq<VmdkExtent>,
    offset: int,
    data: Seq<u8>,
) -> bool {
    forall|i: int, j: int, place: Place|
        #[trigger] lands_at(identity, extents, offset, data.len() as int, i, place)
            && #[trigger] lands_at(identity, extents, offset, data.len() as int, j, place)
            ==> data[i] == data[j]
}

/// Whether no two extents keep their bytes in one file.
pub open spec fn in_files_of_their_own(identity: Identity, extents: Seq<VmdkExtent>) -> bool {
    forall|a: int, b: int|
        0 <= a < b < extents.len() ==> match (
            (#[trigger] extents[a]).storage,
            (#[trigger] extents[b]).storage,
        ) {
            (
                Some(ExtentStorage::Flat { file: first, .. }),
                Some(ExtentStorage::Flat { file: second, .. }),
            ) => identity(first) != identity(second),
            _ => true,
        }
}

/// Where no two extents share a file, no two bytes of the disk share a place, and
/// every write agrees with itself.
pub proof fn law_files_of_their_own_agree(
    identity: Identity,
    extents: Seq<VmdkExtent>,
    offset: int,
    data: Seq<u8>,
)
    requires
        in_files_of_their_own(identity, extents),
    ensures
        forall|i: int, j: int|
            place_of(identity, extents, i) is Some && #[trigger] place_of(identity, extents, i)
                == #[trigger] place_of(identity, extents, j) ==> i == j,
        agrees_with_itself(identity, extents, offset, data),
{
    assert forall|i: int, j: int|
        place_of(identity, extents, i) is Some && #[trigger] place_of(identity, extents, i)
            == #[trigger] place_of(identity, extents, j) implies i == j by {
        let a = disk::extent_index(extents, i);
        let b = disk::extent_index(extents, j);
        assert(a == b) by {
            if a < b {
                assert(extents[a].storage is Some && extents[b].storage is Some);
            } else if b < a {
                assert(extents[b].storage is Some && extents[a].storage is Some);
            }
        }
    }
}

/// After a write that is carried out, the disk has the bytes that were written.
pub proof fn law_disk_has_what_was_written(
    store: Store,
    identity: Identity,
    extents: Seq<VmdkExtent>,
    offset: i64,
    buffers: Seq<Seq<u8>>,
    i: int,
)
    requires
        disk::end_to_end(extents),
        fit_in_memory(buffers),
        sync::vectored_plan_of(
            Direction::Write,
            extents,
            offset as int,
            lengths(buffers),
        ).outcome is Ok,
        0 <= i < sync::vectored_plan_of(
            Direction::Write,
            extents,
            offset as int,
            lengths(buffers),
        ).outcome->Ok_0,
        agrees_with_itself(
            identity,
            extents,
            offset as int,
            buffers.flatten().take(
                sync::vectored_plan_of(
                    Direction::Write,
                    extents,
                    offset as int,
                    lengths(buffers),
                ).outcome->Ok_0 as int,
            ),
        ),
    ensures
        ({
            let plan = sync::vectored_plan_of(
                Direction::Write,
                extents,
                offset as int,
                lengths(buffers),
            );
            disk_byte(
                vectored_written(store, identity, plan.transfers, buffers),
                identity,
                extents,
                offset + i,
            ) == Some(buffers.flatten()[i])
        }),
{
    let plan = sync::vectored_plan_of(Direction::Write, extents, offset as int, lengths(buffers));
    let data = buffers.flatten().take(plan.outcome->Ok_0 as int);
    let after = vectored_written(store, identity, plan.transfers, buffers);
    lemma_vectored_places(identity, extents, offset as int, 0, buffers, i);
    let place = place_of(identity, extents, offset + i)->0;
    law_vectored_write_effect(store, identity, extents, offset, buffers, place);
    let n = data.len() as int;
    assert(lands_at(identity, extents, offset as int, n, i, place));
    let j = choose|j: int|
        #[trigger] lands_at(identity, extents, offset as int, n, j, place) && after[place]
            == data[j];
    assert(data[i] == data[j]);
}

/// A byte of the disk that a write does not reach, by its own place or by another
/// byte's, stays as it is.
pub proof fn law_write_keeps_other_bytes(
    store: Store,
    identity: Identity,
    extents: Seq<VmdkExtent>,
    offset: i64,
    buffers: Seq<Seq<u8>>,
    other: int,
)
    requires
        disk::end_to_end(extents),
        fit_in_memory(buffers),
        sync::vectored_plan_of(
            Direction::Write,
            extents,
            offset as int,
            lengths(buffers),
        ).outcome is Ok,
        place_of(identity, extents, other) matches Some(place) ==> !touches(
            identity,
            extents,
            offset as int,
            sync::vectored_plan_of(
                Direction::Write,
                extents,
                offset as int,
                lengths(buffers),
            ).outcome->Ok_0 as int,
            place,
        ),
    ensures
        ({
            let plan = sync::vectored_plan_of(
                Direction::Write,
                extents,
                offset as int,
                lengths(buffers),
            );
            disk_byte(
                vectored_written(store, identity, plan.transfers, buffers),
                identity,
                extents,
                other,
            ) == disk_byte(store, identity, extents, other)
        }),
{
    if let Some(place) = place_of(identity, extents, other) {
        law_vectored_write_effect(store, identity, extents, offset, buffers, place);
    }
}

/// A read gives back what a write wrote, however the two split the bytes into
/// buffers. Both are carried out, and the read reads no more than was written.
/// Where bytes of the disk share a place, the write gives them one value.
pub proof fn law_read_gives_back_what_was_written(
    store: Store,
    identity: Identity,
    extents: Seq<VmdkExtent>,
    offset: i64,
    sources: Seq<Seq<u8>>,
    buffers: Seq<Seq<u8>>,
)
    requires
        disk::end_to_end(extents),
        fit_in_memory(sources),
        fit_in_memory(buffers),
        ({
            let write = sync::vectored_plan_of(
                Direction::Write,
                extents,
                offset as int,
                lengths(sources),
            );
            let read = sync::vectored_plan_of(
                Direction::Read,
                extents,
                offset as int,
                lengths(buffers),
            );
            &&& write.outcome is Ok
            &&& read.outcome is Ok
            &&& read.outcome->Ok_0 <= write.outcome->Ok_0
            &&& agrees_with_itself(
                identity,
                extents,
                offset as int,
                sources.flatten().take(write.outcome->Ok_0 as int),
            )
        }),
    ensures
        ({
            let write = sync::vectored_plan_of(
                Direction::Write,
                extents,
                offset as int,
                lengths(sources),
            );
            let read = sync::vectored_plan_of(
                Direction::Read,
                extents,
                offset as int,
                lengths(buffers),
            );
            let after = vectored_written(store, identity, write.transfers, sources);
            let n = read.outcome->Ok_0 as int;
            vectored_read(after, identity, read.transfers, buffers).flatten().take(n)
                == sources.flatten().take(n)
        }),
{
    let write = sync::vectored_plan_of(Direction::Write, extents, offset as int, lengths(sources));
    let plan = sync::vectored_plan_of(Direction::Read, extents, offset as int, lengths(buffers));
    let after = vectored_written(store, identity, write.transfers, sources);
    let n = plan.outcome->Ok_0 as int;
    lemma_vectored_total(Direction::Write, extents, offset as int, 0, sources);
    lemma_vectored_total(Direction::Read, extents, offset as int, 0, buffers);
    assert forall|i: int| 0 <= i < n implies #[trigger] disk_byte(
        after,
        identity,
        extents,
        offset + i,
    ) == Some(sources.flatten()[i]) by {
        law_disk_has_what_was_written(store, identity, extents, offset, sources, i);
    }
    law_vectored_read_effect(after, identity, extents, offset, buffers);
    let result = vectored_read(after, identity, plan.transfers, buffers).flatten();
    assert forall|i: int| 0 <= i < n implies result.take(n)[i] == sources.flatten().take(n)[i] by {
        assert(disk_byte(after, identity, extents, offset + i) == Some(sources.flatten()[i]));
        assert(result[i] == disk_byte(after, identity, extents, offset + i)->0);
    }
    assert(result.take(n) =~= sources.flatten().take(n));
}

proof fn lemma_rest_written_is_readable(
    extents: Seq<VmdkExtent>,
    offset: int,
    start: int,
    len: int,
)
    requires
        disk::rest_of_plan(Direction::Write, extents, offset, start, len).outcome is Ok,
    ensures
        disk::rest_of_plan(Direction::Read, extents, offset, start, len) == disk::rest_of_plan(
            Direction::Write,
            extents,
            offset,
            start,
            len,
        ),
    decreases len,
{
    let i = disk::extent_index(extents, offset);
    if len > 0 && disk::is_extent_at(extents, offset, i) {
        let left = extents[i].disk_range.end - offset;
        let n = if left < len {
            left
        } else {
            len
        };
        lemma_rest_written_is_readable(extents, offset + n, start + n, len - n);
    }
}

/// What can be written can be read, by the same transfers.
pub proof fn law_writable_is_readable(extents: Seq<VmdkExtent>, offset: int, len: int)
    requires
        disk::plan_of(Direction::Write, extents, offset, len).outcome is Ok,
    ensures
        disk::plan_of(Direction::Read, extents, offset, len) == disk::plan_of(
            Direction::Write,
            extents,
            offset,
            len,
        ),
{
    if offset < disk::disk_size(extents) {
        lemma_rest_written_is_readable(extents, offset, 0, len);
    }
}

proof fn lemma_rest_vectored_readable(
    extents: Seq<VmdkExtent>,
    pos: int,
    total: int,
    lens: Seq<usize>,
)
    requires
        sync::rest_of_vectored(Direction::Write, extents, pos, total, lens).outcome is Ok,
    ensures
        sync::rest_of_vectored(Direction::Read, extents, pos, total, lens)
            == sync::rest_of_vectored(Direction::Write, extents, pos, total, lens),
    decreases lens.len(),
{
    if lens.len() > 0 {
        let plan = disk::plan_of(Direction::Write, extents, pos, lens[0] as int);
        law_writable_is_readable(extents, pos, lens[0] as int);
        let n = plan.outcome->Ok_0;
        lemma_rest_vectored_readable(extents, pos + n, total + n, lens.drop_first());
    }
}

/// What can be written from several buffers can be read to buffers of the same
/// lengths, by the same transfers.
pub proof fn law_vectored_writable_is_readable(
    extents: Seq<VmdkExtent>,
    offset: int,
    lens: Seq<usize>,
)
    requires
        sync::vectored_plan_of(Direction::Write, extents, offset, lens).outcome is Ok,
    ensures
        sync::vectored_plan_of(Direction::Read, extents, offset, lens) == sync::vectored_plan_of(
            Direction::Write,
            extents,
            offset,
            lens,
        ),
{
    lemma_rest_vectored_readable(extents, offset, 0, lens);
}

} // verus!
