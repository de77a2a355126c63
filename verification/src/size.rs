//! The space that the files of a disk take up.
//!
//! Extents may share a file, and a file counts once. The caller looks the files
//! up one at a time, in the order descriptor first, then extents, and asks of
//! each whether it is new before it looks up the file's size.

use crate::error;
use crate::error::{invalid_data, VmdkError};
use std::collections::HashSet;
use vstd::prelude::*;

verus! {

broadcast use vstd::std_specs::hash::group_hash_axioms;

/// What tells a file from every other: the numbers of its device and its inode.
pub type FileKey = (u64, u64);

/// A key as a single number.
spec fn packed(key: FileKey) -> u128 {
    (key.0 * 0x1_0000_0000_0000_0000 + key.1) as u128
}

fn pack(key: FileKey) -> (number: u128)
    ensures
        number == packed(key),
{
    key.0 as u128 * 0x1_0000_0000_0000_0000 + key.1 as u128
}

/// The space found so far.
#[derive(Debug)]
pub struct PhysicalSize {
    seen: HashSet<u128>,
    size: u64,
}

/// The view of a [`PhysicalSize`].
pub struct SizeView {
    pub seen: Set<FileKey>,
    pub size: u64,
}

impl View for PhysicalSize {
    type V = SizeView;

    closed spec fn view(&self) -> SizeView {
        SizeView {
            seen: Set::new(|key: FileKey| self.seen@.contains(packed(key))),
            size: self.size,
        }
    }
}

/// A file's size added to the space found so far.
pub open spec fn added(found: SizeView, size: u64) -> Result<SizeView, error::Failure> {
    if found.size + size > u64::MAX {
        Err(error::invalid_data_failure("size overflow"@))
    } else {
        Ok(SizeView { size: (found.size + size) as u64, ..found })
    }
}

impl PhysicalSize {
    /// Starts with the descriptor's file.
    pub fn new(key: FileKey, size: u64) -> (found: PhysicalSize)
        ensures
            found@ == (SizeView { seen: Set::empty().insert(key), size }),
    {
        let mut seen: HashSet<u128> = HashSet::new();
        seen.insert(pack(key));
        let found = PhysicalSize { seen, size };
        assert(found@.seen =~= Set::empty().insert(key));
        found
    }

    /// Whether the file was not met before. It counts as met from now on.
    pub fn is_new(&mut self, key: FileKey) -> (new: bool)
        ensures
            new == !old(self)@.seen.contains(key),
            final(self)@ == (SizeView { seen: old(self)@.seen.insert(key), ..old(self)@ }),
    {
        let new = self.seen.insert(pack(key));
        assert(self@.seen =~= old(self)@.seen.insert(key));
        new
    }

    /// Adds the size of a new file.
    pub fn count(&mut self, size: u64) -> (verdict: Result<(), VmdkError>)
        ensures
            match added(old(self)@, size) {
                Ok(found) => verdict is Ok && final(self)@ == found,
                Err(failure) => error::seen(verdict) == Err::<(), error::Failure>(failure)
                    && final(self)@ == old(self)@,
            },
    {
        match self.size.checked_add(size) {
            Some(size) => {
                self.size = size;
                assert(self@.seen =~= old(self)@.seen);
                Ok(())
            },
            None => Err(invalid_data("size overflow")),
        }
    }

    /// The space found so far, in bytes.
    pub fn total(&self) -> (size: u64)
        ensures
            size == self@.size,
    {
        self.size
    }
}

/// A file that was looked up: its key and its size.
pub struct FileView {
    pub key: FileKey,
    pub size: u64,
}

/// The space found once a file was looked up: counted where it is new.
pub open spec fn looked_up(found: SizeView, file: FileView) -> Result<SizeView, error::Failure> {
    if found.seen.contains(file.key) {
        Ok(found)
    } else {
        added(SizeView { seen: found.seen.insert(file.key), ..found }, file.size)
    }
}

/// The space found once files were looked up in order, the descriptor's first.
pub open spec fn measured(descriptor: FileView, files: Seq<FileView>) -> Result<
    SizeView,
    error::Failure,
>
    decreases files.len(),
{
    if files.len() == 0 {
        Ok(SizeView { seen: Set::empty().insert(descriptor.key), size: descriptor.size })
    } else {
        match measured(descriptor, files.drop_last()) {
            Ok(found) => looked_up(found, files.last()),
            Err(failure) => Err(failure),
        }
    }
}

/// Whether a file has the key of one of `files`.
pub open spec fn is_among(file: FileView, files: Seq<FileView>) -> bool {
    exists|i: int| 0 <= i < files.len() && (#[trigger] files[i]).key == file.key
}

/// The sizes of the files, each counted where its key first occurs.
pub open spec fn distinct_size(files: Seq<FileView>) -> int
    decreases files.len(),
{
    if files.len() == 0 {
        0
    } else {
        distinct_size(files.drop_last()) + if is_among(files.last(), files.drop_last()) {
            0
        } else {
            files.last().size as int
        }
    }
}

/// The space of a disk is the sum over its distinct files, the descriptor's
/// among them, and it cannot be told if and only if that sum is no `u64`.
pub proof fn law_distinct_files_counted_once(descriptor: FileView, files: Seq<FileView>)
    ensures
        match measured(descriptor, files) {
            Ok(found) => {
                &&& found.size == distinct_size(seq![descriptor] + files)
                &&& forall|file: FileView|
                    #![trigger is_among(file, seq![descriptor] + files)]
                    found.seen.contains(file.key) <==> is_among(file, seq![descriptor] + files)
            },
            Err(failure) => {
                &&& distinct_size(seq![descriptor] + files) > u64::MAX
                &&& failure == error::invalid_data_failure("size overflow"@)
            },
        },
    decreases files.len(),
{
    let all = seq![descriptor] + files;
    if files.len() == 0 {
        reveal_with_fuel(distinct_size, 2);
        assert(all =~= seq![descriptor]);
        assert(all.drop_last() =~= Seq::<FileView>::empty());
        assert forall|file: FileView|
            #![trigger is_among(file, all)]
            measured(descriptor, files)->Ok_0.seen.contains(file.key) <==> is_among(file, all) by {
            if file.key == descriptor.key {
                assert(all[0].key == file.key);
            }
        }
    } else {
        let front = seq![descriptor] + files.drop_last();
        law_distinct_files_counted_once(descriptor, files.drop_last());
        assert(all.drop_last() =~= front);
        assert(all.last() == files.last());
        assert(is_among(files.last(), front) || !is_among(files.last(), front));
        if let Ok(found) = measured(descriptor, files) {
            assert forall|file: FileView|
                #![trigger is_among(file, all)]
                found.seen.contains(file.key) <==> is_among(file, all) by {
                assert(is_among(file, front) || !is_among(file, front));
                if is_among(file, front) {
                    let i = choose|i: int|
                        0 <= i < front.len() && (#[trigger] front[i]).key == file.key;
                    assert(all[i].key == file.key);
                }
                if file.key == files.last().key {
                    assert(all[all.len() - 1].key == file.key);
                }
                if is_among(file, all) {
                    let i = choose|i: int|
                        0 <= i < all.len() && (#[trigger] all[i]).key == file.key;
                    if i < front.len() {
                        assert(front[i].key == file.key);
                    }
                }
            }
        }
    }
}

} // verus!
