//! Whole partition files: what a file of records looks like, and what reading
//! it gives back.

use crate::frame::lemma_le_value_of_bytes;
use crate::frame::lemma_record_fits;
use crate::frame::spec_frame;
use crate::frame::spec_le_bytes;
use crate::frame::spec_read;
use crate::frame::spec_record_at;
use vstd::prelude::*;

verus! {

/// The file that holds the records with bodies `bodies`: their frames, one
/// after another, with nothing before, between or after them.
pub open spec fn spec_log(bodies: Seq<Seq<u8>>) -> Seq<u8>
    decreases bodies.len(),
{
    if bodies.len() == 0 {
        Seq::empty()
    } else {
        spec_frame(bodies.first()) + spec_log(bodies.drop_first())
    }
}

/// The records with bodies `bodies` as a read reports them when the first
/// begins at `base`: each with the position at which it begins.
pub open spec fn spec_placed(base: int, bodies: Seq<Seq<u8>>) -> Seq<(int, Seq<u8>)>
    decreases bodies.len(),
{
    if bodies.len() == 0 {
        Seq::empty()
    } else {
        seq![(base, bodies.first())] + spec_placed(
            base + 8 + bodies.first().len(),
            bodies.drop_first(),
        )
    }
}

/// The length of every body can be told in the eight bytes of a length field.
pub open spec fn spec_bodies_fit(bodies: Seq<Seq<u8>>) -> bool {
    forall|i: int| 0 <= i < bodies.len() ==> (#[trigger] bodies[i]).len() <= u64::MAX
}

/// `tail` holds no whole record at its start: it is empty, or it ends within
/// a length field, or within the body that its length field announces.
pub open spec fn spec_partial(tail: Seq<u8>) -> bool {
    spec_record_at(tail, 0) is None
}

/// The smaller of a limit and a number of records.
pub open spec fn spec_count(limit: nat, total: nat) -> nat {
    if limit <= total {
        limit
    } else {
        total
    }
}

/// A frame is found again where it was put, whatever lies before and after.
pub proof fn lemma_record_at_frame(before: Seq<u8>, body: Seq<u8>, after: Seq<u8>)
    requires
        body.len() <= u64::MAX,
    ensures
        spec_record_at(before + spec_frame(body) + after, before.len() as int) == Some(body),
{
    let file = before + spec_frame(body) + after;
    let at = before.len() as int;
    lemma_le_value_of_bytes(body.len() as int);
    assert(file.subrange(at, at + 8) =~= spec_le_bytes(body.len() as int));
    assert(file.subrange(at + 8, at + 8 + body.len()) =~= body);
}

/// Where a file ends in something that holds no whole record, no record is
/// found at that position.
pub proof fn lemma_no_record_at_partial(before: Seq<u8>, tail: Seq<u8>)
    requires
        spec_partial(tail),
    ensures
        spec_record_at(before + tail, before.len() as int) is None,
{
    let file = before + tail;
    let at = before.len() as int;
    if tail.len() >= 8 {
        assert(file.subrange(at, at + 8) =~= tail.subrange(0, 8));
    }
}

/// A record that a file holds is found unchanged after anything is appended
/// to the file.
pub proof fn lemma_record_at_extended(file: Seq<u8>, more: Seq<u8>, offset: int)
    requires
        spec_record_at(file, offset) is Some,
    ensures
        spec_record_at(file + more, offset) == spec_record_at(file, offset),
{
    lemma_record_fits(file, offset);
    let n = spec_record_at(file, offset).unwrap().len() as int;
    assert((file + more).subrange(offset, offset + 8) =~= file.subrange(offset, offset + 8));
    assert((file + more).subrange(offset + 8, offset + 8 + n) =~= file.subrange(
        offset + 8,
        offset + 8 + n,
    ));
}

/// As many positions as bodies.
pub proof fn lemma_placed_len(base: int, bodies: Seq<Seq<u8>>)
    ensures
        spec_placed(base, bodies).len() == bodies.len(),
    decreases bodies.len(),
{
    if bodies.len() > 0 {
        lemma_placed_len(base + 8 + bodies.first().len(), bodies.drop_first());
    }
}

/// The file of a longer list of records is the file of the shorter list with
/// one more frame at its end.
pub proof fn lemma_log_push(bodies: Seq<Seq<u8>>, body: Seq<u8>)
    ensures
        spec_log(bodies.push(body)) == spec_log(bodies) + spec_frame(body),
    decreases bodies.len(),
{
    let longer = bodies.push(body);
    if bodies.len() == 0 {
        assert(longer.drop_first() =~= bodies);
        assert(spec_log(longer) =~= spec_log(bodies) + spec_frame(body));
    } else {
        lemma_log_push(bodies.drop_first(), body);
        assert(longer.drop_first() =~= bodies.drop_first().push(body));
        assert(longer.first() == bodies.first());
        assert(spec_log(longer) =~= spec_log(bodies) + spec_frame(body));
    }
}

/// The first of several records shown stands at the base, the others follow
/// behind its frame.
proof fn lemma_placed_unfold(base: int, bodies: Seq<Seq<u8>>, count: int)
    requires
        1 <= count <= bodies.len(),
    ensures
        spec_placed(base, bodies.take(count)) == seq![(base, bodies.first())] + spec_placed(
            base + 8 + bodies.first().len(),
            bodies.drop_first().take(count - 1),
        ),
{
    let shown = bodies.take(count);
    assert(shown.first() == bodies.first());
    assert(shown.drop_first() =~= bodies.drop_first().take(count - 1));
}

/// A run of frames between two stretches of bytes begins with its first
/// frame, and the other frames follow.
proof fn lemma_log_unfold(before: Seq<u8>, bodies: Seq<Seq<u8>>, tail: Seq<u8>)
    requires
        bodies.len() > 0,
    ensures
        before + spec_log(bodies) + tail == before + spec_frame(bodies.first()) + (spec_log(
            bodies.drop_first(),
        ) + tail),
        before + spec_log(bodies) + tail == (before + spec_frame(bodies.first())) + spec_log(
            bodies.drop_first(),
        ) + tail,
{
    let first = spec_frame(bodies.first());
    let others = spec_log(bodies.drop_first());
    assert(spec_log(bodies) == first + others);
    assert(before + (first + others) + tail =~= before + first + (others + tail));
    assert(before + (first + others) + tail =~= (before + first) + others + tail);
}

/// Reading a run of frames from its first byte gives the first `limit`
/// records, or all of them where there are fewer, in file order, each at the
/// position where its frame begins. What lies before the run does not matter,
/// and what lies after it ends the read without a trace as long as it holds
/// no whole record.
pub proof fn lemma_read_run(before: Seq<u8>, bodies: Seq<Seq<u8>>, tail: Seq<u8>, limit: nat)
    requires
        spec_bodies_fit(bodies),
        spec_partial(tail),
    ensures
        spec_read(before + spec_log(bodies) + tail, before.len() as int, limit) == spec_placed(
            before.len() as int,
            bodies.take(spec_count(limit, bodies.len()) as int),
        ),
    decreases bodies.len(),
{
    let file = before + spec_log(bodies) + tail;
    let at = before.len() as int;
    let count = spec_count(limit, bodies.len());
    if limit == 0 {
    } else if bodies.len() == 0 {
        assert(file =~= before + tail);
        lemma_no_record_at_partial(before, tail);
    } else {
        let body = bodies.first();
        let rest = bodies.drop_first();
        let further = before + spec_frame(body);
        assert(body.len() <= u64::MAX) by {
            assert(body == bodies[0]);
        }
        assert(spec_bodies_fit(rest)) by {
            assert forall|i: int| 0 <= i < rest.len() implies (#[trigger] rest[i]).len()
                <= u64::MAX by {
                assert(rest[i] == bodies[i + 1]);
            }
        }
        lemma_log_unfold(before, bodies, tail);
        lemma_record_at_frame(before, body, spec_log(rest) + tail);
        lemma_read_run(further, rest, tail, (limit - 1) as nat);
        lemma_placed_unfold(at, bodies, count as int);
        assert(further.len() == at + 8 + body.len());
        assert(spec_count((limit - 1) as nat, rest.len()) == count - 1);
        assert(spec_record_at(file, at) == Some(body));
        assert(spec_read(file, at, limit) == seq![(at, body)] + spec_read(
            file,
            at + 8 + body.len(),
            (limit - 1) as nat,
        ));
    }
}

/// A record can be read back as soon as its frame is at the end of the file:
/// one read at the position where the file ended before gives exactly that
/// record, whatever the file held until then.
pub proof fn lemma_append_then_read(file: Seq<u8>, body: Seq<u8>)
    requires
        body.len() <= u64::MAX,
    ensures
        spec_read(file + spec_frame(body), file.len() as int, 1) == seq![
            (file.len() as int, body),
        ],
{
    let longer = file + spec_frame(body);
    let at = file.len() as int;
    lemma_record_at_frame(file, body, Seq::empty());
    assert(longer =~= file + spec_frame(body) + Seq::<u8>::empty());
    assert(spec_read(longer, at + 8 + body.len(), 0) =~= Seq::<(int, Seq<u8>)>::empty());
    assert(spec_read(longer, at, 1) =~= seq![(at, body)]) by {
        reveal_with_fuel(spec_read, 2);
    }
}

/// Reading a file of records from its start gives the first `limit` of them,
/// or all of them where the file holds fewer, in the order in which they were
/// appended.
pub proof fn lemma_read_limit(bodies: Seq<Seq<u8>>, limit: nat)
    requires
        spec_bodies_fit(bodies),
    ensures
        spec_read(spec_log(bodies), 0, limit) == spec_placed(
            0,
            bodies.take(spec_count(limit, bodies.len()) as int),
        ),
        spec_read(spec_log(bodies), 0, limit).len() == spec_count(limit, bodies.len()),
{
    let none = Seq::<u8>::empty();
    assert(none + spec_log(bodies) + none =~= spec_log(bodies));
    lemma_read_run(none, bodies, none, limit);
    lemma_placed_len(0, bodies.take(spec_count(limit, bodies.len()) as int));
}

/// A frame that was cut short, anywhere before its last byte, holds no whole
/// record.
pub proof fn lemma_cut_frame_is_partial(body: Seq<u8>, kept: int)
    requires
        body.len() <= u64::MAX,
        0 <= kept < 8 + body.len(),
    ensures
        spec_partial(spec_frame(body).take(kept)),
{
    let tail = spec_frame(body).take(kept);
    if kept >= 8 {
        lemma_le_value_of_bytes(body.len() as int);
        assert(tail.subrange(0, 8) =~= spec_le_bytes(body.len() as int));
    }
}

/// A file that ends within a record reads as the file without that ending:
/// every whole record before it is given, and the read then stops.
pub proof fn lemma_read_ignores_partial_tail(bodies: Seq<Seq<u8>>, tail: Seq<u8>, limit: nat)
    requires
        spec_bodies_fit(bodies),
        spec_partial(tail),
    ensures
        spec_read(spec_log(bodies) + tail, 0, limit) == spec_read(spec_log(bodies), 0, limit),
{
    let none = Seq::<u8>::empty();
    assert(none + spec_log(bodies) + tail =~= spec_log(bodies) + tail);
    lemma_read_run(none, bodies, tail, limit);
    lemma_read_limit(bodies, limit);
}

/// Appending to a file disturbs no record that could be read from it before:
/// a read of the longer file begins with what the same read gave of the
/// shorter one.
pub proof fn lemma_read_extended(file: Seq<u8>, more: Seq<u8>, offset: int, limit: nat)
    ensures
        spec_read(file, offset, limit).is_prefix_of(spec_read(file + more, offset, limit)),
    decreases limit,
{
    if limit > 0 && spec_record_at(file, offset) is Some {
        let body = spec_record_at(file, offset).unwrap();
        lemma_record_at_extended(file, more, offset);
        lemma_read_extended(file, more, offset + 8 + body.len(), (limit - 1) as nat);
        let short = spec_read(file, offset + 8 + body.len(), (limit - 1) as nat);
        let long = spec_read(file + more, offset + 8 + body.len(), (limit - 1) as nat);
        let head = seq![(offset, body)];
        assert((head + short).is_prefix_of(head + long)) by {
            assert((head + long).subrange(0, (head + short).len() as int) =~= head + short);
        }
    } else {
        assert(spec_read(file, offset, limit) =~= Seq::<(int, Seq<u8>)>::empty());
        assert(spec_read(file + more, offset, limit).subrange(0, 0) =~= Seq::<
            (int, Seq<u8>),
        >::empty());
    }
}

/// A file of records taken up again where it ended: the frame appended to it
/// makes it the file of the old records followed by the new one, and a read
/// from the start gives them in that order.
pub proof fn lemma_read_after_resume(bodies: Seq<Seq<u8>>, body: Seq<u8>, limit: nat)
    requires
        spec_bodies_fit(bodies),
        body.len() <= u64::MAX,
    ensures
        spec_log(bodies) + spec_frame(body) == spec_log(bodies.push(body)),
        spec_read(spec_log(bodies) + spec_frame(body), 0, limit) == spec_placed(
            0,
            bodies.push(body).take(spec_count(limit, bodies.len() + 1) as int),
        ),
{
    lemma_log_push(bodies, body);
    lemma_read_limit(bodies.push(body), limit);
}

} // verus!
