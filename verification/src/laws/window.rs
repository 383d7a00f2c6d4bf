//! The reorder window: what it holds, what it delivers, and when it gives up.

use crate::reorder::{
    arrives, chunk_len, cut_from, entry_cap, fresh, law_delivers_everything,
    law_what_fits_never_overflows, overflows, run, stream_bytes, ReorderView,
};
use crate::sums::total;
use vstd::prelude::*;

verus! {

/// Whatever its byte budget, a window has room for 512 chunks, and for as many chunks of
/// the largest size as the budget pays for; but for no more than the larger of the two.
/// A larger budget never makes the room smaller.
pub proof fn law_room_for_chunks(budget: nat, larger: nat)
    requires
        budget <= larger,
    ensures
        entry_cap(budget) >= 512,
        entry_cap(budget) >= budget / 65535,
        entry_cap(budget) == 512 || entry_cap(budget) == budget / 65535,
        entry_cap(budget) <= entry_cap(larger),
{
    assert(budget / 65535 <= larger / 65535);
}

/// A new window waits for number 1, holds nothing, and keeps to its limits.
pub proof fn law_new_window(budget: nat, entries: nat)
    ensures
        fresh(budget, entries).expected == 1,
        forall|s: u64| !#[trigger] fresh(budget, entries).pending.contains_key(s),
        fresh(budget, entries).max_bytes == budget,
        fresh(budget, entries).max_entries == entries,
{
}

/// A stream of at most 512 chunks that fits into the byte budget comes out whole, whatever
/// the budget is and in whatever order its chunks arrive, each at least once.
pub proof fn law_short_streams_get_through(
    budget: nat,
    input: Seq<(u64, Seq<u8>)>,
    stream: Seq<Seq<u8>>,
)
    requires
        stream.len() <= 512,
        stream_bytes(stream) <= budget,
        cut_from(input, stream),
        forall|n: int| 1 <= n <= stream.len() ==> #[trigger] arrives(input, n),
    ensures
        !overflows(fresh(budget, entry_cap(budget)), input),
        run(fresh(budget, entry_cap(budget)), input).1 == stream,
{
    law_room_for_chunks(budget, budget);
    law_what_fits_never_overflows(budget, entry_cap(budget), input, stream);
    law_delivers_everything(budget, entry_cap(budget), input, stream);
}

/// The bytes of a stream are the bytes of its parts.
pub proof fn law_stream_bytes(stream: Seq<Seq<u8>>, chunk: Seq<u8>)
    ensures
        stream_bytes(Seq::empty()) == 0,
        stream_bytes(stream.push(chunk)) == stream_bytes(stream) + chunk.len(),
{
    assert(stream.push(chunk).drop_last() =~= stream);
}

/// The size of a chunk is the number of its bytes.
pub proof fn law_chunk_size(chunk: Seq<u8>)
    ensures
        chunk_len()(chunk) == chunk.len(),
{
}

/// What becomes of one chunk. One with a number that is past, or that is held already,
/// changes nothing. One with a later number is held if there is room, in chunks and in
/// bytes, and else overflows and changes nothing.
pub proof fn law_what_becomes_of_a_chunk(v: ReorderView, seq: u64, payload: Seq<u8>)
    ensures
        ({
            let (next, r) = v.push(seq, payload);
            let known = seq < v.expected || v.pending.contains_key(seq);
            let room = v.pending.dom().len() + 1 <= v.max_entries && total(
                v.pending,
                |c: Seq<u8>| c.len(),
            ) + payload.len() <= v.max_bytes;
            &&& r.accepted <==> !known && (seq == v.expected || room)
            &&& r.overflow <==> !known && seq != v.expected && !room
            &&& !r.accepted ==> next == v && r.ready.len() == 0
            &&& r.accepted && seq != v.expected ==> r.ready.len() == 0 && next.expected
                == v.expected && next.pending == v.pending.insert(seq, payload)
            &&& next.max_bytes == v.max_bytes
            &&& next.max_entries == v.max_entries
        }),
{
    assert(chunk_len() =~= (|c: Seq<u8>| c.len()));
}

/// The chunk that is due is delivered first, then the chunks that were held under the
/// numbers that follow it, up to the first number that is missing. These leave the window
/// and all others stay.
pub proof fn law_the_chunk_that_is_due(v: ReorderView, payload: Seq<u8>)
    requires
        !v.pending.contains_key(v.expected),
    ensures
        ({
            let (next, r) = v.push(v.expected, payload);
            let end = v.expected + r.ready.len();
            &&& r.ready.len() >= 1
            &&& r.ready[0] == payload
            &&& end <= u64::MAX + 1
            &&& forall|i: int|
                1 <= i < r.ready.len() ==> v.pending.contains_key((v.expected + i) as u64)
                    && #[trigger] r.ready[i] == v.pending[(v.expected + i) as u64]
            &&& end <= u64::MAX ==> !v.pending.contains_key(end as u64)
            &&& next.expected == (if end > u64::MAX {
                0
            } else {
                end
            })
            &&& forall|s: u64| #[trigger]
                next.pending.contains_key(s) <==> v.pending.contains_key(s) && s >= end
            &&& forall|s: u64| #[trigger]
                next.pending.contains_key(s) ==> next.pending[s] == v.pending[s]
        }),
{
    lemma_gap_end(v, v.expected + 1);
    let (next, r) = v.push(v.expected, payload);
    let to = v.gap(v.expected + 1);
    assert(r.ready.len() == to - v.expected);
    assert forall|i: int| 1 <= i < r.ready.len() implies v.pending.contains_key(
        (v.expected + i) as u64,
    ) && #[trigger] r.ready[i] == v.pending[(v.expected + i) as u64] by {
        let s = v.expected + i;
        assert(v.pending.contains_key(s as u64));
    }
}

proof fn lemma_gap_end(v: ReorderView, from: int)
    requires
        0 <= from <= u64::MAX + 1,
    ensures
        from <= v.gap(from) <= u64::MAX + 1,
        forall|s: int| from <= s < v.gap(from) ==> #[trigger] v.pending.contains_key(s as u64),
        v.gap(from) <= u64::MAX ==> !v.pending.contains_key(v.gap(from) as u64),
    decreases u64::MAX + 1 - from,
{
    if from <= u64::MAX && v.pending.contains_key(from as u64) {
        lemma_gap_end(v, from + 1);
        assert forall|s: int| from <= s < v.gap(from) implies #[trigger] v.pending.contains_key(
            s as u64,
        ) by {
            if s > from {
                assert(from + 1 <= s < v.gap(from + 1));
            }
        }
    }
}

/// A window that is within its limits stays within them.
pub proof fn law_the_window_is_bounded(v: ReorderView, seq: u64, payload: Seq<u8>)
    requires
        v.pending.dom().finite(),
        v.pending.dom().len() <= v.max_entries,
        total(v.pending, |c: Seq<u8>| c.len()) <= v.max_bytes,
        forall|s: u64| #[trigger] v.pending.contains_key(s) ==> s > v.expected,
    ensures
        ({
            let next = v.push(seq, payload).0;
            &&& next.pending.dom().finite()
            &&& next.pending.dom().len() <= v.max_entries
            &&& total(next.pending, |c: Seq<u8>| c.len()) <= v.max_bytes
        }),
{
    assert(chunk_len() =~= (|c: Seq<u8>| c.len()));
    crate::reorder::law_window_stays_bounded(v, seq, payload);
}

} // verus!
