//! One partition of the log: the file that backs it and its append cursor.

use vstd::prelude::*;
use vstd::string::StringExecFns;

verus! {

/// What a partition entry stands for.
pub struct PartitionView {
    /// Name of the file that backs the partition.
    pub file_path: Seq<char>,
    /// Position right after the last record appended: where the next begins.
    pub current_offset: nat,
}

/// The entry that the registry keeps for one open partition.
pub struct PartitionFile {
    file_path: String,
    current_offset: u64,
}

impl View for PartitionFile {
    type V = PartitionView;

    closed spec fn view(&self) -> PartitionView {
        PartitionView {
            file_path: self.file_path@,
            current_offset: self.current_offset as nat,
        }
    }
}

/// The ending that turns a partition id into the name of its file.
pub open spec fn spec_log_suffix() -> Seq<char> {
    seq!['.', 'l', 'o', 'g']
}

/// The name of the file that backs partition `partition_id`.
pub open spec fn spec_partition_path(partition_id: Seq<char>) -> Seq<char> {
    partition_id + spec_log_suffix()
}

/// Different partitions are backed by different files.
pub proof fn lemma_partition_path_injective(a: Seq<char>, b: Seq<char>)
    requires
        spec_partition_path(a) == spec_partition_path(b),
    ensures
        a == b,
{
    let pa = spec_partition_path(a);
    let pb = spec_partition_path(b);
    assert(pa.len() == a.len() + 4);
    assert(pb.len() == b.len() + 4);
    assert forall|i: int| 0 <= i < a.len() implies a[i] == b[i] by {
        assert(pa[i] == a[i]);
        assert(pb[i] == b[i]);
    }
    assert(a =~= b);
}

/// The name of the file that backs partition `partition_id`: the id followed
/// by `.log`.
pub fn partition_path(partition_id: &str) -> (path: String)
    ensures
        path@ == spec_partition_path(partition_id@),
{
    let mut path = partition_id.to_owned();
    path.append(".log");
    proof {
        reveal_strlit(".log");
        assert(".log"@ =~= spec_log_suffix());
    }
    path
}

impl PartitionFile {
    /// The entry of the partition backed by `file_path`, with its cursor at
    /// `current_offset`.
    pub(crate) fn at(file_path: String, current_offset: u64) -> (part: PartitionFile)
        ensures
            part@ == (PartitionView {
                file_path: file_path@,
                current_offset: current_offset as nat,
            }),
    {
        PartitionFile { file_path, current_offset }
    }

    /// Name of the file that backs the partition.
    pub fn file_path(&self) -> (path: &str)
        ensures
            path@ == self@.file_path,
    {
        self.file_path.as_str()
    }

    /// Position right after the last record appended.
    pub fn current_offset(&self) -> (offset: u64)
        ensures
            offset as nat == self@.current_offset,
    {
        self.current_offset
    }
}

} // verus!
