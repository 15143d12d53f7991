//! The registry of open partitions and the storage interface built on it.
//!
//! The registry does no I/O. Its caller opens and reads the files, and hands
//! over what it found as plain values: the length of a file on opening it, the
//! bytes of a file on reading it.

use crate::frame::read_records;
use crate::frame::spec_read;
use crate::frame::spec_records;
use crate::partition::lemma_partition_path_injective;
use crate::partition::partition_path;
use crate::partition::spec_partition_path;
use crate::partition::PartitionFile;
use crate::partition::PartitionView;
use vstd::hash_map::StringHashMap;
use vstd::prelude::*;

verus! {

/// Why a storage operation was refused.
#[derive(Debug, Clone, Copy, PartialEq, Eq, Structural)]
pub enum StorageError {
    /// The partition was never opened.
    NotFound,
    /// The record would end beyond the largest offset that can be told.
    OffsetOverflow,
}

/// The open partitions after `partition_id` is opened on a file of length
/// `file_len`: unchanged where it was open, else with a new entry whose cursor
/// is at the end of the file.
pub open spec fn spec_open(
    partitions: Map<Seq<char>, PartitionView>,
    partition_id: Seq<char>,
    file_len: nat,
) -> Map<Seq<char>, PartitionView> {
    if partitions.dom().contains(partition_id) {
        partitions
    } else {
        partitions.insert(
            partition_id,
            PartitionView {
                file_path: spec_partition_path(partition_id),
                current_offset: file_len,
            },
        )
    }
}

/// Where the cursor of `partition_id` stands after a record with a body of
/// `body_len` bytes is appended: behind the eight bytes of the length and the
/// body. The partition is opened first, as in [`spec_open`].
pub open spec fn spec_append_offset(
    partitions: Map<Seq<char>, PartitionView>,
    partition_id: Seq<char>,
    file_len: nat,
    body_len: nat,
) -> nat {
    spec_open(partitions, partition_id, file_len)[partition_id].current_offset + 8 + body_len
}

/// What such an append returns: the new offset, or the refusal where the
/// offset cannot be told in 64 bits.
pub open spec fn spec_append_result(
    partitions: Map<Seq<char>, PartitionView>,
    partition_id: Seq<char>,
    file_len: nat,
    body_len: nat,
) -> Result<u64, StorageError> {
    let end = spec_append_offset(partitions, partition_id, file_len, body_len);
    if end <= u64::MAX {
        Ok(end as u64)
    } else {
        Err(StorageError::OffsetOverflow)
    }
}

/// The open partitions after such an append. Where the new offset cannot be
/// told in 64 bits the partition is opened and its cursor stays.
pub open spec fn spec_append(
    partitions: Map<Seq<char>, PartitionView>,
    partition_id: Seq<char>,
    file_len: nat,
    body_len: nat,
) -> Map<Seq<char>, PartitionView> {
    let opened = spec_open(partitions, partition_id, file_len);
    let end = spec_append_offset(partitions, partition_id, file_len, body_len);
    if end <= u64::MAX {
        opened.insert(
            partition_id,
            PartitionView { file_path: opened[partition_id].file_path, current_offset: end },
        )
    } else {
        opened
    }
}

/// Every open partition is backed by the file named after it.
pub open spec fn spec_paths_follow_ids(partitions: Map<Seq<char>, PartitionView>) -> bool {
    forall|id: Seq<char>| #[trigger]
        partitions.dom().contains(id) ==> partitions[id].file_path == spec_partition_path(id)
}

/// What the rest of a server asks of a log store.
pub trait LogStorage {
    /// The open partitions, by id.
    spec fn partitions(&self) -> Map<Seq<char>, PartitionView>;

    /// The store's invariant.
    spec fn valid(&self) -> bool;

    /// Takes note that the record with body `body` was written to the end of
    /// the file of `partition_id`, and returns the offset right after it: the
    /// position at which the next record will begin. A partition that is not
    /// open yet is opened first, with its cursor at `file_len`, the length of
    /// its file before the record was written.
    fn append(&mut self, partition_id: &str, file_len: u64, body: &[u8]) -> (r: Result<
        u64,
        StorageError,
    >)
        requires
            old(self).valid(),
        ensures
            final(self).valid(),
            final(self).partitions() == spec_append(
                old(self).partitions(),
                partition_id@,
                file_len as nat,
                body@.len(),
            ),
            r == spec_append_result(
                old(self).partitions(),
                partition_id@,
                file_len as nat,
                body@.len(),
            ),
    ;

    /// Reads up to `limit` records of `partition_id` out of `file`, the
    /// content of its file, starting at `offset`. Each record comes with the
    /// position at which it begins. A file that ends within a record ends the
    /// read without an error. A partition that was never opened is not found.
    fn read(&self, partition_id: &str, file: &[u8], offset: u64, limit: usize) -> (r: Result<
        Vec<(u64, Vec<u8>)>,
        StorageError,
    >)
        requires
            self.valid(),
        ensures
            !self.partitions().dom().contains(partition_id@) ==> r == Err::<
                Vec<(u64, Vec<u8>)>,
                StorageError,
            >(StorageError::NotFound),
            self.partitions().dom().contains(partition_id@) ==> r is Ok && spec_records(
                r.unwrap()@,
            ) == spec_read(file@, offset as int, limit as nat),
    ;
}

/// The registry of open partitions: for each id the file that backs it and
/// the offset at which its next record begins.
pub struct FileLogStorage {
    partitions: StringHashMap<PartitionFile>,
}

impl View for FileLogStorage {
    type V = Map<Seq<char>, PartitionView>;

    closed spec fn view(&self) -> Map<Seq<char>, PartitionView> {
        self.partitions@.map_values(|p: PartitionFile| p@)
    }
}

impl FileLogStorage {
    /// The registry's invariant: every partition is backed by the file named
    /// after it.
    pub open spec fn wf(&self) -> bool {
        spec_paths_follow_ids(self@)
    }

    /// A registry with no partition open.
    pub fn new() -> (storage: FileLogStorage)
        ensures
            storage.wf(),
            storage@ == Map::<Seq<char>, PartitionView>::empty(),
    {
        let storage = FileLogStorage { partitions: StringHashMap::new() };
        assert(storage@ =~= Map::<Seq<char>, PartitionView>::empty());
        storage
    }

    /// Whether `partition_id` is open.
    pub fn is_open(&self, partition_id: &str) -> (open: bool)
        ensures
            open == self@.dom().contains(partition_id@),
    {
        self.partitions.contains_key(partition_id)
    }

    /// The entry of `partition_id`, where it is open.
    pub fn partition(&self, partition_id: &str) -> (part: Option<&PartitionFile>)
        ensures
            match part {
                Some(p) => self@.dom().contains(partition_id@) && p@ == self@[partition_id@],
                None => !self@.dom().contains(partition_id@),
            },
    {
        self.partitions.get(partition_id)
    }

    /// Opens `partition_id` on a file of length `file_len`: the cursor starts
    /// at the end of what the file already holds. Nothing changes where the
    /// partition is open already.
    pub fn open_partition(&mut self, partition_id: &str, file_len: u64)
        requires
            old(self).wf(),
        ensures
            final(self).wf(),
            final(self)@ == spec_open(old(self)@, partition_id@, file_len as nat),
    {
        if self.partitions.contains_key(partition_id) {
            return ;
        }
        let part = PartitionFile::at(partition_path(partition_id), file_len);
        self.partitions.insert(partition_id.to_owned(), part);
        assert(self@ =~= spec_open(old(self)@, partition_id@, file_len as nat));
    }

    /// The name of the file to read `partition_id` from. A partition that was
    /// never opened is not found.
    pub fn file_path(&self, partition_id: &str) -> (r: Result<String, StorageError>)
        ensures
            match r {
                Ok(path) => self@.dom().contains(partition_id@) && path@
                    == self@[partition_id@].file_path,
                Err(e) => !self@.dom().contains(partition_id@) && e == StorageError::NotFound,
            },
    {
        match self.partitions.get(partition_id) {
            Some(part) => Ok(part.file_path().to_owned()),
            None => Err(StorageError::NotFound),
        }
    }
}

impl LogStorage for FileLogStorage {
    open spec fn partitions(&self) -> Map<Seq<char>, PartitionView> {
        self@
    }

    open spec fn valid(&self) -> bool {
        self.wf()
    }

    fn append(&mut self, partition_id: &str, file_len: u64, body: &[u8]) -> (r: Result<
        u64,
        StorageError,
    >) {
        let (file_path, start) = match self.partitions.get(partition_id) {
            Some(part) => (part.file_path().to_owned(), part.current_offset()),
            None => (partition_path(partition_id), file_len),
        };
        let len = body.len() as u64;
        let fits = len <= u64::MAX - 8 && start <= u64::MAX - 8 - len;
        let end = if fits {
            start + 8 + len
        } else {
            start
        };
        self.partitions.insert(partition_id.to_owned(), PartitionFile::at(file_path, end));
        assert(self@ =~= spec_append(
            old(self)@,
            partition_id@,
            file_len as nat,
            body@.len(),
        ));
        if fits {
            Ok(end)
        } else {
            Err(StorageError::OffsetOverflow)
        }
    }

    fn read(&self, partition_id: &str, file: &[u8], offset: u64, limit: usize) -> (r: Result<
        Vec<(u64, Vec<u8>)>,
        StorageError,
    >) {
        if !self.partitions.contains_key(partition_id) {
            return Err(StorageError::NotFound);
        }
        Ok(read_records(file, offset, limit))
    }
}

/// Offsets only grow: an append returns the cursor it found plus the length
/// of the frame, and the append that follows it on the same partition returns
/// that much plus the length of its own frame.
pub proof fn lemma_offsets_increase(
    partitions: Map<Seq<char>, PartitionView>,
    partition_id: Seq<char>,
    file_len: nat,
    first_len: nat,
    next_file_len: nat,
    next_len: nat,
)
    requires
        spec_append_offset(partitions, partition_id, file_len, first_len) <= u64::MAX,
    ensures
        spec_append_offset(partitions, partition_id, file_len, first_len) == spec_open(
            partitions,
            partition_id,
            file_len,
        )[partition_id].current_offset + 8 + first_len,
        spec_append_offset(
            spec_append(partitions, partition_id, file_len, first_len),
            partition_id,
            next_file_len,
            next_len,
        ) == spec_append_offset(partitions, partition_id, file_len, first_len) + 8 + next_len,
{
}

/// A partition that is opened anew takes up its file where it ends: the
/// cursor is the length of the file, and the first append returns that
/// length plus the length of its frame.
pub proof fn lemma_open_resumes(
    partitions: Map<Seq<char>, PartitionView>,
    partition_id: Seq<char>,
    file_len: nat,
    body_len: nat,
)
    requires
        !partitions.dom().contains(partition_id),
    ensures
        spec_open(partitions, partition_id, file_len)[partition_id].current_offset == file_len,
        spec_append_offset(partitions, partition_id, file_len, body_len) == file_len + 8
            + body_len,
{
}

/// Opening a partition twice is opening it once.
pub proof fn lemma_open_idempotent(
    partitions: Map<Seq<char>, PartitionView>,
    partition_id: Seq<char>,
    file_len: nat,
    later_file_len: nat,
)
    ensures
        spec_open(
            spec_open(partitions, partition_id, file_len),
            partition_id,
            later_file_len,
        ) == spec_open(partitions, partition_id, file_len),
{
}

/// An append to one partition leaves every other partition as it was: open
/// or not, with the same file and the same cursor. The two are backed by
/// different files.
pub proof fn lemma_append_isolated(
    partitions: Map<Seq<char>, PartitionView>,
    partition_id: Seq<char>,
    other_id: Seq<char>,
    file_len: nat,
    body_len: nat,
)
    requires
        partition_id != other_id,
    ensures
        spec_append(partitions, partition_id, file_len, body_len).dom().contains(other_id)
            == partitions.dom().contains(other_id),
        spec_append(partitions, partition_id, file_len, body_len)[other_id]
            == partitions[other_id],
        spec_partition_path(partition_id) != spec_partition_path(other_id),
{
    if spec_partition_path(partition_id) == spec_partition_path(other_id) {
        lemma_partition_path_injective(partition_id, other_id);
    }
}

} // verus!
