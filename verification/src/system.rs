//! The registry and the files taken together: what holds of a store whose
//! caller writes each frame to the end of the partition's file and then
//! takes note of the append.

use crate::frame::spec_frame;
use crate::frame::spec_read;
use crate::log::lemma_append_then_read;
use crate::log::lemma_read_extended;
use crate::partition::lemma_partition_path_injective;
use crate::partition::spec_partition_path;
use crate::partition::PartitionView;
use crate::storage::spec_append;
use crate::storage::spec_append_offset;
use crate::storage::spec_open;
use crate::storage::spec_paths_follow_ids;
use vstd::prelude::*;

verus! {

/// What the file `path` holds. A file that does not exist holds nothing.
pub open spec fn spec_file(files: Map<Seq<char>, Seq<u8>>, path: Seq<char>) -> Seq<u8> {
    if files.dom().contains(path) {
        files[path]
    } else {
        Seq::empty()
    }
}

/// The files after the frame of `body` is written to the end of the file of
/// `partition_id`.
pub open spec fn spec_files_after_append(
    files: Map<Seq<char>, Seq<u8>>,
    partition_id: Seq<char>,
    body: Seq<u8>,
) -> Map<Seq<char>, Seq<u8>> {
    let path = spec_partition_path(partition_id);
    files.insert(path, spec_file(files, path) + spec_frame(body))
}

/// The cursor of every open partition stands at the end of its file.
pub open spec fn spec_cursors_at_end(
    partitions: Map<Seq<char>, PartitionView>,
    files: Map<Seq<char>, Seq<u8>>,
) -> bool {
    forall|id: Seq<char>| #[trigger]
        partitions.dom().contains(id) ==> partitions[id].current_offset == spec_file(
            files,
            partitions[id].file_path,
        ).len()
}

/// The registry and the files agree: every partition is backed by the file
/// named after it, and its cursor stands at the end of that file.
pub open spec fn spec_consistent(
    partitions: Map<Seq<char>, PartitionView>,
    files: Map<Seq<char>, Seq<u8>>,
) -> bool {
    spec_paths_follow_ids(partitions) && spec_cursors_at_end(partitions, files)
}

/// Opening a partition on the length of its file keeps registry and files in
/// agreement.
pub proof fn lemma_open_keeps_consistent(
    partitions: Map<Seq<char>, PartitionView>,
    files: Map<Seq<char>, Seq<u8>>,
    partition_id: Seq<char>,
)
    requires
        spec_consistent(partitions, files),
    ensures
        spec_consistent(
            spec_open(
                partitions,
                partition_id,
                spec_file(files, spec_partition_path(partition_id)).len(),
            ),
            files,
        ),
{
    let file_len = spec_file(files, spec_partition_path(partition_id)).len();
    let opened = spec_open(partitions, partition_id, file_len);
    assert forall|id: Seq<char>| #[trigger] opened.dom().contains(id) implies opened[id].file_path
        == spec_partition_path(id) && opened[id].current_offset == spec_file(
        files,
        opened[id].file_path,
    ).len() by {
        if id != partition_id {
            assert(partitions.dom().contains(id));
        }
    }
}

/// An append keeps registry and files in agreement, and the offset that it
/// returns is the new length of the partition's file.
pub proof fn lemma_append_keeps_consistent(
    partitions: Map<Seq<char>, PartitionView>,
    files: Map<Seq<char>, Seq<u8>>,
    partition_id: Seq<char>,
    body: Seq<u8>,
)
    requires
        spec_consistent(partitions, files),
        spec_append_offset(
            partitions,
            partition_id,
            spec_file(files, spec_partition_path(partition_id)).len(),
            body.len(),
        ) <= u64::MAX,
    ensures
        spec_consistent(
            spec_append(
                partitions,
                partition_id,
                spec_file(files, spec_partition_path(partition_id)).len(),
                body.len(),
            ),
            spec_files_after_append(files, partition_id, body),
        ),
        spec_append_offset(
            partitions,
            partition_id,
            spec_file(files, spec_partition_path(partition_id)).len(),
            body.len(),
        ) == spec_file(
            spec_files_after_append(files, partition_id, body),
            spec_partition_path(partition_id),
        ).len(),
{
    let path = spec_partition_path(partition_id);
    let file_len = spec_file(files, path).len();
    let after = spec_append(partitions, partition_id, file_len, body.len());
    let written = spec_files_after_append(files, partition_id, body);
    lemma_open_keeps_consistent(partitions, files, partition_id);
    let opened = spec_open(partitions, partition_id, file_len);
    assert(opened.dom().contains(partition_id));
    assert forall|id: Seq<char>| #[trigger] after.dom().contains(id) implies after[id].file_path
        == spec_partition_path(id) && after[id].current_offset == spec_file(
        written,
        after[id].file_path,
    ).len() by {
        if id != partition_id {
            assert(opened.dom().contains(id));
            if spec_partition_path(id) == path {
                lemma_partition_path_injective(id, partition_id);
            }
        }
    }
}

/// What is appended can be read back: after the append, one read of the
/// partition's file at the offset where the cursor stood gives exactly the
/// record appended.
pub proof fn lemma_round_trip(
    partitions: Map<Seq<char>, PartitionView>,
    files: Map<Seq<char>, Seq<u8>>,
    partition_id: Seq<char>,
    body: Seq<u8>,
)
    requires
        spec_consistent(partitions, files),
        body.len() <= u64::MAX,
    ensures
        spec_read(
            spec_file(
                spec_files_after_append(files, partition_id, body),
                spec_partition_path(partition_id),
            ),
            spec_open(
                partitions,
                partition_id,
                spec_file(files, spec_partition_path(partition_id)).len(),
            )[partition_id].current_offset as int,
            1,
        ) == seq![
            (
                spec_open(
                    partitions,
                    partition_id,
                    spec_file(files, spec_partition_path(partition_id)).len(),
                )[partition_id].current_offset as int,
                body,
            ),
        ],
{
    let path = spec_partition_path(partition_id);
    let file = spec_file(files, path);
    lemma_open_keeps_consistent(partitions, files, partition_id);
    let opened = spec_open(partitions, partition_id, file.len());
    assert(opened.dom().contains(partition_id));
    assert(opened[partition_id].current_offset == file.len());
    lemma_append_then_read(file, body);
}

/// Partitions do not see each other: an append to one partition changes no
/// byte of the file of another, so every read of the other gives what it
/// gave before.
pub proof fn lemma_partitions_isolated(
    files: Map<Seq<char>, Seq<u8>>,
    partition_id: Seq<char>,
    other_id: Seq<char>,
    body: Seq<u8>,
    offset: int,
    limit: nat,
)
    requires
        partition_id != other_id,
    ensures
        spec_file(
            spec_files_after_append(files, partition_id, body),
            spec_partition_path(other_id),
        ) == spec_file(files, spec_partition_path(other_id)),
        spec_read(
            spec_file(
                spec_files_after_append(files, partition_id, body),
                spec_partition_path(other_id),
            ),
            offset,
            limit,
        ) == spec_read(spec_file(files, spec_partition_path(other_id)), offset, limit),
{
    if spec_partition_path(partition_id) == spec_partition_path(other_id) {
        lemma_partition_path_injective(partition_id, other_id);
    }
}

/// An append overwrites nothing: every read of the partition's file after
/// the append begins with the records that the same read gave before.
pub proof fn lemma_append_keeps_records(
    files: Map<Seq<char>, Seq<u8>>,
    partition_id: Seq<char>,
    body: Seq<u8>,
    offset: int,
    limit: nat,
)
    ensures
        spec_read(spec_file(files, spec_partition_path(partition_id)), offset, limit).is_prefix_of(
            spec_read(
                spec_file(
                    spec_files_after_append(files, partition_id, body),
                    spec_partition_path(partition_id),
                ),
                offset,
                limit,
            ),
        ),
{
    let file = spec_file(files, spec_partition_path(partition_id));
    lemma_read_extended(file, spec_frame(body), offset, limit);
}

} // verus!
