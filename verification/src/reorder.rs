//! Reordering of numbered chunks.

use crate::buf::bytes_content;
use crate::frame::{data_frames, MAX_PAYLOAD, MAX_REORDER_BYTES, MAX_REORDER_WINDOW};
use crate::sums::{lemma_total_empty, lemma_total_insert, lemma_total_remove, total};
use bytes::Bytes;
use std::collections::BTreeMap;
use vstd::prelude::*;

verus! {

/// What came of a push into the reorder buffer.
pub struct PushResult {
    /// Chunks that are now in order, first one first.
    pub ready: Vec<Bytes>,
    /// Whether the chunk was delivered or queued.
    pub accepted: bool,
    /// Whether the chunk was dropped because the window is full. Its number will
    /// never come again, so the caller has to reset the connection.
    pub overflow: bool,
}

/// A [`PushResult`] as mathematical values.
#[verifier::ext_equal]
pub struct PushView {
    pub ready: Seq<Seq<u8>>,
    pub accepted: bool,
    pub overflow: bool,
}

impl View for PushResult {
    type V = PushView;

    open spec fn view(&self) -> PushView {
        PushView {
            ready: contents(self.ready@),
            accepted: self.accepted,
            overflow: self.overflow,
        }
    }
}

/// The contents of a list of chunks.
pub open spec fn contents(chunks: Seq<Bytes>) -> Seq<Seq<u8>> {
    chunks.map_values(|b: Bytes| bytes_content(b))
}

/// The size of one chunk.
pub open spec fn chunk_len() -> spec_fn(Seq<u8>) -> nat {
    |s: Seq<u8>| s.len()
}

/// A reorder buffer as mathematical values: the number it delivers next, the
/// chunks that wait for a gap to fill, and its two limits.
#[verifier::ext_equal]
pub struct ReorderView {
    pub expected: u64,
    pub pending: Map<u64, Seq<u8>>,
    pub max_bytes: nat,
    pub max_entries: nat,
}

impl ReorderView {
    /// How many bytes wait.
    pub open spec fn pending_bytes(self) -> nat {
        total(self.pending, chunk_len())
    }

    /// Only later numbers wait, and both limits hold.
    pub open spec fn inv(self) -> bool {
        &&& self.pending.dom().finite()
        &&& forall|s: u64| #[trigger] self.pending.contains_key(s) ==> s > self.expected
        &&& self.pending.dom().len() <= self.max_entries
        &&& self.pending_bytes() <= self.max_bytes
    }

    /// The first number from `from` on that does not wait.
    pub open spec fn gap(self, from: int) -> int
        decreases u64::MAX + 1 - from,
    {
        if 0 <= from <= u64::MAX && self.pending.contains_key(from as u64) {
            self.gap(from + 1)
        } else {
            from
        }
    }

    /// The chunks that wait with the numbers `from` to `to - 1`.
    pub open spec fn chunks(self, from: int, to: int) -> Seq<Seq<u8>> {
        Seq::new((to - from) as nat, |i: int| self.pending[(from + i) as u64])
    }

    /// The buffer after everything below `to` has left it.
    pub open spec fn drained(self, to: int) -> ReorderView {
        ReorderView {
            expected: wrap(to),
            pending: self.pending.restrict(Set::new(|s: u64| s >= to)),
            ..self
        }
    }

    /// Whether the window has room for `len` more bytes in one chunk.
    pub open spec fn has_room(self, len: nat) -> bool {
        self.pending.dom().len() < self.max_entries && self.pending_bytes() + len
            <= self.max_bytes
    }

    /// Pushing a chunk: the next buffer and what is reported.
    ///
    /// A number that was delivered or already waits is a duplicate. The number
    /// that is due is delivered together with every chunk that follows it without
    /// a gap. A later number waits if there is room for it, and else overflows.
    pub open spec fn push(self, seq: u64, payload: Seq<u8>) -> (ReorderView, PushView) {
        if seq < self.expected || self.pending.contains_key(seq) {
            (
                self,
                PushView { ready: Seq::empty(), accepted: false, overflow: false },
            )
        } else if seq == self.expected {
            let to = self.gap(seq + 1);
            (
                self.drained(to),
                PushView {
                    ready: seq![payload] + self.chunks(seq + 1, to),
                    accepted: true,
                    overflow: false,
                },
            )
        } else if self.has_room(payload.len()) {
            (
                ReorderView { pending: self.pending.insert(seq, payload), ..self },
                PushView { ready: Seq::empty(), accepted: true, overflow: false },
            )
        } else {
            (
                self,
                PushView { ready: Seq::empty(), accepted: false, overflow: true },
            )
        }
    }
}

/// A run of chunks that wait leads to the same gap from its start and its end.
proof fn lemma_gap_past_run(v: ReorderView, from: int, to: int)
    requires
        0 <= from <= to <= u64::MAX + 1,
        forall|s: int| from <= s < to ==> #[trigger] v.pending.contains_key(s as u64),
    ensures
        v.gap(from) == v.gap(to),
    decreases to - from,
{
    if from < to {
        assert(v.pending.contains_key(from as u64));
        lemma_gap_past_run(v, from + 1, to);
    }
}

/// A map of chunks counts its keys.
proof fn lemma_pending_len(m: &BTreeMap<u64, Bytes>)
    ensures
        m.len() == m@.dom().len(),
{
    broadcast use vstd::std_specs::btree::group_btree_axioms;

    assert(vstd::std_specs::btree::key_obeys_cmp_spec::<u64>());
}

/// A sequence number, counted around past the largest one.
pub open spec fn wrap(s: int) -> u64 {
    if s > u64::MAX {
        0
    } else {
        s as u64
    }
}

/// Buffers chunks that arrive out of order and delivers them in the order of
/// their numbers, the first of which is 1.
///
/// The window is bounded by a number of chunks and by a number of bytes.
pub struct ReorderBuf {
    expected: u64,
    pending: BTreeMap<u64, Bytes>,
    pending_bytes: usize,
    max_bytes: usize,
    max_entries: usize,
}

impl View for ReorderBuf {
    type V = ReorderView;

    closed spec fn view(&self) -> ReorderView {
        ReorderView {
            expected: self.expected,
            pending: self.pending@.map_values(|b: Bytes| bytes_content(b)),
            max_bytes: self.max_bytes as nat,
            max_entries: self.max_entries as nat,
        }
    }
}

impl ReorderBuf {
    /// The view's invariant holds, and the byte count is the true one.
    pub closed spec fn wf(&self) -> bool {
        &&& self@.inv()
        &&& self.pending_bytes == self@.pending_bytes()
    }

    /// A sound buffer has a sound view.
    pub proof fn lemma_wf_inv(&self)
        requires
            self.wf(),
        ensures
            self@.inv(),
    {
    }

    /// A buffer with the default window.
    pub fn new() -> (r: Self)
        ensures
            r.wf(),
            r@ == fresh(MAX_REORDER_BYTES as nat, MAX_REORDER_WINDOW as nat),
    {
        Self::with_limit(MAX_REORDER_BYTES)
    }

    /// A buffer that holds at most `max_bytes` bytes, in at most as many chunks as
    /// full frames fit into that budget, but never fewer than the default window.
    pub fn with_limit(max_bytes: usize) -> (r: Self)
        ensures
            r.wf(),
            r@ == fresh(max_bytes as nat, entry_cap(max_bytes as nat)),
    {
        let full: usize = max_bytes / MAX_PAYLOAD;
        let max_entries: usize = if full > MAX_REORDER_WINDOW {
            full
        } else {
            MAX_REORDER_WINDOW
        };
        let r = ReorderBuf {
            expected: 1,
            pending: BTreeMap::new(),
            pending_bytes: 0,
            max_bytes,
            max_entries,
        };
        proof {
            assert(r@.pending =~= Map::<u64, Seq<u8>>::empty());
            lemma_total_empty::<u64, Seq<u8>>(chunk_len());
        }
        r
    }

    /// Takes a chunk in and returns the chunks that are now in order.
    pub fn push(&mut self, seq: u64, payload: Bytes) -> (r: PushResult)
        requires
            old(self).wf(),
        ensures
            final(self).wf(),
            (final(self)@, r@) == old(self)@.push(seq, bytes_content(payload)),
    {
        broadcast use vstd::std_specs::btree::group_btree_axioms;
        let mut ready: Vec<Bytes> = Vec::new();
        assert(contents(ready@) =~= Seq::empty());
        if seq < self.expected || self.pending.contains_key(&seq) {
            return PushResult { ready, accepted: false, overflow: false };
        }
        if seq == self.expected {
            let ghost start = self@;
            let ghost size = chunk_len();
            let ghost mut cur: int = seq + 1;
            ready.push(payload);
            self.expected = self.expected.wrapping_add(1);
            proof {
                assert(contents(ready@) =~= seq![bytes_content(payload)] + start.chunks(cur, cur));
                assert(self@.pending =~= start.pending.restrict(Set::new(|s: u64| s >= cur)));
            }
            loop
                invariant_except_break
                    self@.pending == start.pending.restrict(Set::new(|s: u64| s >= cur)),
                invariant
                    start.inv(),
                    start.expected == seq,
                    seq + 1 <= cur <= u64::MAX + 1,
                    self.expected == wrap(cur),
                    self.max_bytes == start.max_bytes,
                    self.max_entries == start.max_entries,
                    forall|s: int|
                        seq + 1 <= s < cur ==> #[trigger] start.pending.contains_key(s as u64),
                    contents(ready@) == seq![bytes_content(payload)] + start.chunks(seq + 1, cur),
                    size == chunk_len(),
                    self.pending_bytes == total(self@.pending, size),
                    self.pending_bytes <= start.max_bytes,
                    self@.pending.dom().finite(),
                    self@.pending.dom().len() <= start.max_entries,
                ensures
                    self@.pending == start.pending.restrict(Set::new(|s: u64| s >= cur)),
                    cur <= u64::MAX ==> !start.pending.contains_key(cur as u64),
                decreases self@.pending.dom().len(),
            {
                let ghost before = self@.pending;
                match self.pending.remove(&self.expected) {
                    Some(chunk) => {
                        let ghost was = ready@;
                        proof {
                            assert(before.contains_key(self.expected));
                            lemma_total_remove(before, self.expected, size);
                            assert(self@.pending =~= before.remove(self.expected));
                        }
                        self.pending_bytes = self.pending_bytes - chunk.len();
                        ready.push(chunk);
                        self.expected = self.expected.wrapping_add(1);
                        proof {
                            assert(contents(ready@) =~= contents(was).push(bytes_content(chunk)));
                            assert(start.chunks(seq + 1, cur + 1) =~= start.chunks(
                                seq + 1,
                                cur,
                            ).push(start.pending[cur as u64]));
                            assert(contents(ready@) =~= seq![bytes_content(payload)]
                                + start.chunks(seq + 1, cur + 1));
                            cur = cur + 1;
                            assert(self@.pending =~= start.pending.restrict(
                                Set::new(|s: u64| s >= cur),
                            ));
                        }
                    },
                    None => {
                        proof {
                            assert(self@.pending =~= before);
                            assert(!before.contains_key(self.expected));
                        }
                        break;
                    },
                }
            }
            proof {
                lemma_gap_past_run(start, seq + 1, cur);
                assert(self@ =~= start.drained(cur));
            }
            return PushResult { ready, accepted: true, overflow: false };
        }
        let len: usize = payload.len();
        proof {
            lemma_pending_len(&self.pending);
            assert(self@.pending.dom() =~= self.pending@.dom());
        }
        if self.pending.len() < self.max_entries && len <= self.max_bytes - self.pending_bytes {
            let ghost before = self@;
            self.pending_bytes = self.pending_bytes + len;
            self.pending.insert(seq, payload);
            proof {
                let len = bytes_content(payload).len();
                assert(self@.pending =~= before.pending.insert(seq, bytes_content(payload)));
                lemma_total_insert(before.pending, seq, bytes_content(payload), chunk_len());
                assert(before.has_room(len));
            }
            return PushResult { ready, accepted: true, overflow: false };
        }
        PushResult { ready, accepted: false, overflow: true }
    }

    /// How many bytes wait out of order.
    pub fn pending_bytes(&self) -> (r: usize)
        requires
            self.wf(),
        ensures
            r == self@.pending_bytes(),
    {
        self.pending_bytes
    }

    /// Whether every chunk below `seq` has been delivered, which tells when the
    /// write half behind this buffer may close after a FIN.
    pub fn is_complete_through(&self, seq: u64) -> (r: bool)
        ensures
            r == (self@.expected >= seq),
    {
        self.expected >= seq
    }
}

impl Default for ReorderBuf {
    fn default() -> (r: Self)
        ensures
            r.wf(),
            r@ == fresh(MAX_REORDER_BYTES as nat, MAX_REORDER_WINDOW as nat),
    {
        Self::new()
    }
}

/// How many chunks a window of `max_bytes` holds.
pub open spec fn entry_cap(max_bytes: nat) -> nat {
    if max_bytes / MAX_PAYLOAD as nat > MAX_REORDER_WINDOW {
        max_bytes / MAX_PAYLOAD as nat
    } else {
        MAX_REORDER_WINDOW as nat
    }
}

/// A buffer that nothing was pushed into.
pub open spec fn fresh(max_bytes: nat, max_entries: nat) -> ReorderView {
    ReorderView { expected: 1, pending: Map::empty(), max_bytes, max_entries }
}

/// A buffer after a list of pushes, and all that they delivered.
pub open spec fn run(v: ReorderView, input: Seq<(u64, Seq<u8>)>) -> (ReorderView, Seq<Seq<u8>>)
    decreases input.len(),
{
    if input.len() == 0 {
        (v, Seq::empty())
    } else {
        let (w, out) = run(v, input.drop_last());
        let (next, r) = w.push(input.last().0, input.last().1);
        (next, out + r.ready)
    }
}

/// Whether one of a list of pushes into `v` overflows.
pub open spec fn overflows(v: ReorderView, input: Seq<(u64, Seq<u8>)>) -> bool
    decreases input.len(),
{
    input.len() > 0 && (overflows(v, input.drop_last()) || run(v, input.drop_last()).0.push(
        input.last().0,
        input.last().1,
    ).1.overflow)
}

/// Every push is one of the numbered chunks of `stream`, the first of which has
/// number 1.
pub open spec fn cut_from(input: Seq<(u64, Seq<u8>)>, stream: Seq<Seq<u8>>) -> bool {
    forall|i: int|
        0 <= i < input.len() ==> 1 <= (#[trigger] input[i]).0 <= stream.len() && input[i].1
            == stream[input[i].0 - 1]
}

/// The number `n` is pushed at least once.
pub open spec fn arrives(input: Seq<(u64, Seq<u8>)>, n: int) -> bool {
    exists|i: int| 0 <= i < input.len() && (#[trigger] input[i]).0 == n
}

/// What waits comes from `stream`, and the next number follows what was delivered.
spec fn follows(v: ReorderView, out: Seq<Seq<u8>>, stream: Seq<Seq<u8>>) -> bool {
    &&& v.expected == wrap(out.len() as int + 1)
    &&& out.len() <= stream.len()
    &&& out == stream.take(out.len() as int)
    &&& forall|s: u64| #[trigger]
        v.pending.contains_key(s) ==> v.expected < s <= stream.len() && v.pending[s] == stream[s
            - 1]
}

proof fn lemma_gap(v: ReorderView, from: int)
    requires
        0 <= from <= u64::MAX + 1,
    ensures
        from <= v.gap(from) <= u64::MAX + 1,
        forall|s: int| from <= s < v.gap(from) ==> #[trigger] v.pending.contains_key(s as u64),
        v.gap(from) <= u64::MAX ==> !v.pending.contains_key(v.gap(from) as u64),
    decreases u64::MAX + 1 - from,
{
    if from <= u64::MAX && v.pending.contains_key(from as u64) {
        lemma_gap(v, from + 1);
        assert forall|s: int| from <= s < v.gap(from) implies #[trigger] v.pending.contains_key(
            s as u64,
        ) by {
            if s > from {
                assert(from + 1 <= s < v.gap(from + 1));
            }
        }
    }
}

proof fn lemma_push_follows(
    v: ReorderView,
    out: Seq<Seq<u8>>,
    stream: Seq<Seq<u8>>,
    seq: u64,
    payload: Seq<u8>,
)
    requires
        follows(v, out, stream),
        stream.len() <= u64::MAX,
        1 <= seq <= stream.len(),
        payload == stream[seq - 1],
    ensures
        follows(v.push(seq, payload).0, out + v.push(seq, payload).1.ready, stream),
{
    let (next, r) = v.push(seq, payload);
    if seq == v.expected && !v.pending.contains_key(seq) {
        let to = v.gap(seq + 1);
        lemma_gap(v, seq + 1);
        if to > stream.len() + 1 {
            assert(v.pending.contains_key((to - 1) as u64));
        }
        assert(r.ready.len() == to - seq);
        assert forall|i: int| 0 <= i < to - seq implies r.ready[i] == stream[seq - 1 + i] by {
            if i > 0 {
                assert(v.pending.contains_key((seq + i) as u64));
            }
        }
        assert((out + r.ready) =~= stream.take((out + r.ready).len() as int));
    } else {
        assert(out + r.ready =~= out);
    }
}

proof fn lemma_run_follows(
    max_bytes: nat,
    max_entries: nat,
    input: Seq<(u64, Seq<u8>)>,
    stream: Seq<Seq<u8>>,
)
    requires
        cut_from(input, stream),
        stream.len() <= u64::MAX,
    ensures
        follows(
            run(fresh(max_bytes, max_entries), input).0,
            run(fresh(max_bytes, max_entries), input).1,
            stream,
        ),
    decreases input.len(),
{
    if input.len() == 0 {
        assert(Seq::<Seq<u8>>::empty() =~= stream.take(0));
    } else {
        let start = fresh(max_bytes, max_entries);
        assert(cut_from(input.drop_last(), stream)) by {
            assert forall|i: int| 0 <= i < input.drop_last().len() implies 1 <= (
            #[trigger] input.drop_last()[i]).0 <= stream.len() && input.drop_last()[i].1
                == stream[input.drop_last()[i].0 - 1] by {
                assert(input[i] == input.drop_last()[i]);
            }
        }
        lemma_run_follows(max_bytes, max_entries, input.drop_last(), stream);
        let (w, out) = run(start, input.drop_last());
        let last = input[input.len() - 1];
        lemma_push_follows(w, out, stream, last.0, last.1);
    }
}

/// However the numbered chunks of a stream arrive (in any order, some more than
/// once, some not at all), what a fresh buffer delivers is a prefix of the stream:
/// nothing is lost in the middle, repeated or out of place. The buffer is complete
/// through exactly the numbers of that prefix.
pub proof fn law_delivers_in_order(
    max_bytes: nat,
    max_entries: nat,
    input: Seq<(u64, Seq<u8>)>,
    stream: Seq<Seq<u8>>,
)
    requires
        cut_from(input, stream),
        stream.len() <= u64::MAX,
    ensures
        ({
            let (v, out) = run(fresh(max_bytes, max_entries), input);
            &&& out.len() <= stream.len()
            &&& out == stream.take(out.len() as int)
            &&& v.expected == wrap(out.len() as int + 1)
        }),
{
    lemma_run_follows(max_bytes, max_entries, input, stream);
}

/// When every chunk of a stream arrives at least once and none overflows the
/// window, a fresh buffer delivers the whole stream and, as long as there are numbers
/// left, holds nothing back.
pub proof fn law_delivers_everything(
    max_bytes: nat,
    max_entries: nat,
    input: Seq<(u64, Seq<u8>)>,
    stream: Seq<Seq<u8>>,
)
    requires
        cut_from(input, stream),
        stream.len() <= u64::MAX,
        !overflows(fresh(max_bytes, max_entries), input),
        forall|n: int| 1 <= n <= stream.len() ==> #[trigger] arrives(input, n),
    ensures
        run(fresh(max_bytes, max_entries), input).1 == stream,
        stream.len() < u64::MAX ==> run(fresh(max_bytes, max_entries), input).0.pending == Map::<
            u64,
            Seq<u8>,
        >::empty(),
{
    let start = fresh(max_bytes, max_entries);
    let (v, out) = run(start, input);
    lemma_run_follows(max_bytes, max_entries, input, stream);
    if out.len() < stream.len() {
        let n = out.len() + 1;
        assert(arrives(input, n as int));
        let i = choose|i: int| 0 <= i < input.len() && (#[trigger] input[i]).0 == n;
        lemma_pushed_is_held(max_bytes, max_entries, input, stream, i);
    }
    assert(out =~= stream);
    if stream.len() < u64::MAX {
        assert(v.pending =~= Map::<u64, Seq<u8>>::empty());
    }
}

/// No push before the `i`-th one has its number.
pub open spec fn is_first(input: Seq<(u64, Seq<u8>)>, i: int) -> bool {
    forall|j: int| 0 <= j < i ==> (#[trigger] input[j]).0 != input[i].0
}

/// The `i`-th push was delivered or waits, and with its payload if it was the first
/// under its number.
spec fn is_placed(
    v: ReorderView,
    out: Seq<Seq<u8>>,
    input: Seq<(u64, Seq<u8>)>,
    i: int,
) -> bool {
    let (s, payload) = input[i];
    &&& s >= 1
    &&& s <= out.len() || v.pending.contains_key(s)
    &&& is_first(input, i) ==> payload == (if s <= out.len() {
        out[s - 1]
    } else {
        v.pending[s]
    })
}

/// What a buffer has delivered, and what waits, are the first chunks that came under
/// their numbers, and nothing that came is missing.
spec fn sorts(v: ReorderView, out: Seq<Seq<u8>>, input: Seq<(u64, Seq<u8>)>) -> bool {
    &&& out.len() <= u64::MAX
    &&& v.expected == wrap(out.len() as int + 1)
    &&& forall|n: int| 1 <= n <= out.len() ==> #[trigger] arrives(input, n)
    &&& forall|s: u64| #[trigger]
        v.pending.contains_key(s) && out.len() < u64::MAX ==> s > out.len() + 1 && arrives(
            input,
            s as int,
        )
    &&& forall|i: int| 0 <= i < input.len() ==> #[trigger] is_placed(v, out, input, i)
}

/// One more push leaves the numbers that came before.
proof fn lemma_arrives_push(input: Seq<(u64, Seq<u8>)>, p: (u64, Seq<u8>), n: int)
    ensures
        arrives(input.push(p), n) <==> arrives(input, n) || p.0 == n,
{
    let next = input.push(p);
    if arrives(input, n) {
        let i = choose|i: int| 0 <= i < input.len() && (#[trigger] input[i]).0 == n;
        assert(next[i].0 == n);
    }
    if p.0 == n {
        assert(next[input.len() as int].0 == n);
    }
    if arrives(next, n) && p.0 != n {
        let i = choose|i: int| 0 <= i < next.len() && (#[trigger] next[i]).0 == n;
        assert(input[i].0 == n);
    }
}

/// One more push leaves the pushes that were the first under their numbers.
proof fn lemma_first_push(input: Seq<(u64, Seq<u8>)>, p: (u64, Seq<u8>), i: int)
    requires
        0 <= i <= input.len(),
    ensures
        i < input.len() ==> is_first(input.push(p), i) == is_first(input, i),
        i == input.len() && is_first(input.push(p), i) ==> !arrives(input, p.0 as int),
{
    let next = input.push(p);
    if i == input.len() {
        if is_first(next, i) && arrives(input, p.0 as int) {
            let j = choose|j: int| 0 <= j < input.len() && (#[trigger] input[j]).0 == p.0;
            assert(next[j].0 == p.0);
        }
    } else if is_first(input, i) {
        assert forall|j: int| 0 <= j < i implies (#[trigger] next[j]).0 != next[i].0 by {
            assert(input[j].0 != input[i].0);
        }
    } else {
        let j = choose|j: int| 0 <= j < i && (#[trigger] input[j]).0 == input[i].0;
        assert(next[j].0 == next[i].0);
    }
}

/// The chunk that is due comes.
proof fn lemma_due_sorts(
    v: ReorderView,
    out: Seq<Seq<u8>>,
    input: Seq<(u64, Seq<u8>)>,
    seq: u64,
    payload: Seq<u8>,
)
    requires
        sorts(v, out, input),
        seq >= 1,
        seq == v.expected,
        !v.pending.contains_key(seq),
    ensures
        sorts(
            v.push(seq, payload).0,
            out + v.push(seq, payload).1.ready,
            input.push((seq, payload)),
        ),
{
    let (w, r) = v.push(seq, payload);
    let p = (seq, payload);
    let next = input.push(p);
    let more = out + r.ready;
    let to = v.gap(seq + 1);
    lemma_gap(v, seq + 1);
    assert(seq == out.len() + 1);
    assert(more.len() == to - 1);
    assert forall|n: int| 1 <= n <= more.len() implies #[trigger] arrives(next, n) by {
        lemma_arrives_push(input, p, n);
        if n <= out.len() {
            assert(arrives(input, n));
        } else if n > seq {
            assert(v.pending.contains_key(n as u64));
        }
    }
    assert forall|s: u64| #[trigger] w.pending.contains_key(s) && more.len() < u64::MAX implies s
        > more.len() + 1 && arrives(next, s as int) by {
        lemma_arrives_push(input, p, s as int);
        assert(v.pending.contains_key(s));
        assert(s >= to);
    }
    assert forall|i: int| 0 <= i < next.len() implies #[trigger] is_placed(w, more, next, i) by {
        lemma_first_push(input, p, i);
        if i < input.len() {
            assert(is_placed(v, out, input, i));
            let s = input[i].0;
            if s > out.len() {
                assert(v.pending.contains_key(s));
                if s < to {
                    assert(r.ready[s - seq] == v.pending[s]);
                } else {
                    assert(w.pending.contains_key(s));
                }
            }
        } else {
            assert(r.ready[0] == payload);
        }
    }
}

/// A chunk comes that is not due.
proof fn lemma_early_sorts(
    v: ReorderView,
    out: Seq<Seq<u8>>,
    input: Seq<(u64, Seq<u8>)>,
    seq: u64,
    payload: Seq<u8>,
)
    requires
        sorts(v, out, input),
        seq >= 1,
        seq != v.expected || v.pending.contains_key(seq),
        !v.push(seq, payload).1.overflow,
    ensures
        sorts(
            v.push(seq, payload).0,
            out + v.push(seq, payload).1.ready,
            input.push((seq, payload)),
        ),
{
    let (w, r) = v.push(seq, payload);
    let p = (seq, payload);
    let next = input.push(p);
    assert(out + r.ready =~= out);
    assert forall|n: int| 1 <= n <= out.len() implies #[trigger] arrives(next, n) by {
        lemma_arrives_push(input, p, n);
        assert(arrives(input, n));
    }
    assert forall|s: u64| #[trigger] w.pending.contains_key(s) && out.len() < u64::MAX implies s
        > out.len() + 1 && arrives(next, s as int) by {
        lemma_arrives_push(input, p, s as int);
        if s != seq {
            assert(v.pending.contains_key(s));
        }
    }
    assert forall|i: int| 0 <= i < next.len() implies #[trigger] is_placed(w, out, next, i) by {
        lemma_first_push(input, p, i);
        if i < input.len() {
            assert(is_placed(v, out, input, i));
        } else if seq <= out.len() {
            assert(arrives(input, seq as int));
        } else if v.pending.contains_key(seq) {
            assert(arrives(input, seq as int));
        }
    }
}

/// Whatever is pushed into a fresh buffer, under any numbers from 1 on and in any order,
/// without an overflow: it delivers the chunks with the numbers 1 to `m`, in that order and
/// each once, where `m` is the largest number up to which all numbers came. Of chunks
/// under the same number the first one counts.
pub proof fn law_delivers_what_has_no_gap(
    max_bytes: nat,
    max_entries: nat,
    input: Seq<(u64, Seq<u8>)>,
)
    requires
        forall|i: int| 0 <= i < input.len() ==> (#[trigger] input[i]).0 >= 1,
        !overflows(fresh(max_bytes, max_entries), input),
    ensures
        ({
            let out = run(fresh(max_bytes, max_entries), input).1;
            &&& forall|n: int| 1 <= n <= out.len() ==> #[trigger] arrives(input, n)
            &&& !arrives(input, out.len() as int + 1)
            &&& forall|i: int|
                0 <= i < input.len() && is_first(input, i) && (#[trigger] input[i]).0 <= out.len()
                    ==> out[input[i].0 - 1] == input[i].1
        }),
{
    lemma_run_sorts(max_bytes, max_entries, input);
    let (v, out) = run(fresh(max_bytes, max_entries), input);
    assert forall|i: int|
        0 <= i < input.len() && is_first(input, i) && (#[trigger] input[i]).0
            <= out.len() implies out[input[i].0 - 1] == input[i].1 by {
        assert(is_placed(v, out, input, i));
    }
    if arrives(input, out.len() as int + 1) {
        let i = choose|i: int| 0 <= i < input.len() && (#[trigger] input[i]).0 == out.len() + 1;
        assert(is_placed(v, out, input, i));
    }
}

proof fn lemma_run_sorts(max_bytes: nat, max_entries: nat, input: Seq<(u64, Seq<u8>)>)
    requires
        forall|i: int| 0 <= i < input.len() ==> (#[trigger] input[i]).0 >= 1,
        !overflows(fresh(max_bytes, max_entries), input),
    ensures
        sorts(
            run(fresh(max_bytes, max_entries), input).0,
            run(fresh(max_bytes, max_entries), input).1,
            input,
        ),
    decreases input.len(),
{
    if input.len() > 0 {
        let prev = input.drop_last();
        let last = input[input.len() - 1];
        assert forall|i: int| 0 <= i < prev.len() implies (#[trigger] prev[i]).0 >= 1 by {
            assert(input[i] == prev[i]);
        }
        lemma_run_sorts(max_bytes, max_entries, prev);
        let (w, out) = run(fresh(max_bytes, max_entries), prev);
        if last.0 == w.expected && !w.pending.contains_key(last.0) {
            lemma_due_sorts(w, out, prev, last.0, last.1);
        } else {
            lemma_early_sorts(w, out, prev, last.0, last.1);
        }
        assert(prev.push(last) =~= input);
    }
}

/// The order in which chunks arrive does not change what is delivered.
pub proof fn law_order_of_arrival_does_not_matter(
    max_bytes: nat,
    max_entries: nat,
    a: Seq<(u64, Seq<u8>)>,
    b: Seq<(u64, Seq<u8>)>,
)
    requires
        forall|i: int| 0 <= i < a.len() ==> (#[trigger] a[i]).0 >= 1 && is_first(a, i),
        forall|i: int| 0 <= i < b.len() ==> (#[trigger] b[i]).0 >= 1 && is_first(b, i),
        forall|p: (u64, Seq<u8>)| a.contains(p) <==> b.contains(p),
        !overflows(fresh(max_bytes, max_entries), a),
        !overflows(fresh(max_bytes, max_entries), b),
    ensures
        run(fresh(max_bytes, max_entries), a).1 == run(fresh(max_bytes, max_entries), b).1,
{
    law_delivers_what_has_no_gap(max_bytes, max_entries, a);
    law_delivers_what_has_no_gap(max_bytes, max_entries, b);
    let x = run(fresh(max_bytes, max_entries), a).1;
    let y = run(fresh(max_bytes, max_entries), b).1;
    assert forall|n: int| arrives(a, n) <==> #[trigger] arrives(b, n) by {
        if arrives(a, n) {
            let i = choose|i: int| 0 <= i < a.len() && (#[trigger] a[i]).0 == n;
            assert(a.contains(a[i]));
            let j = b.index_of(a[i]);
            assert(b[j].0 == n);
        }
        if arrives(b, n) {
            let i = choose|i: int| 0 <= i < b.len() && (#[trigger] b[i]).0 == n;
            assert(b.contains(b[i]));
            let j = a.index_of(b[i]);
            assert(a[j].0 == n);
        }
    }
    assert(arrives(b, x.len() as int + 1) == arrives(a, x.len() as int + 1));
    assert(arrives(b, y.len() as int + 1) == arrives(a, y.len() as int + 1));
    assert(x.len() == y.len()) by {
        if x.len() < y.len() {
            assert(arrives(b, x.len() as int + 1));
        }
        if y.len() < x.len() {
            assert(arrives(a, y.len() as int + 1));
        }
    }
    assert forall|i: int| 0 <= i < x.len() implies x[i] == y[i] by {
        assert(arrives(a, i + 1));
        let j = choose|j: int| 0 <= j < a.len() && (#[trigger] a[j]).0 == i + 1;
        assert(a.contains(a[j]));
        let k = b.index_of(a[j]);
        assert(b[k] == a[j]);
    }
    assert(x =~= y);
}

/// End to end: chunks that one side numbers and sends are delivered by the other side
/// as a prefix of what was sent, however their frames arrive. Everything below the
/// number in the FIN has been delivered exactly when every chunk has.
pub proof fn law_stream_survives_the_tunnels(
    conn_id: u32,
    chunks: Seq<Seq<u8>>,
    arrival: Seq<int>,
    max_bytes: nat,
    max_entries: nat,
)
    requires
        chunks.len() < u64::MAX,
        forall|i: int| 0 <= i < arrival.len() ==> 0 <= #[trigger] arrival[i] < chunks.len(),
    ensures
        ({
            let frames = data_frames(conn_id, chunks);
            let input = arrival.map_values(|k: int| (frames[k].seq, frames[k].payload));
            let (v, out) = run(fresh(max_bytes, max_entries), input);
            let fin_seq = (chunks.len() + 1) as u64;
            &&& out.len() <= chunks.len()
            &&& out == chunks.take(out.len() as int)
            &&& v.expected >= fin_seq <==> out == chunks
        }),
{
    let frames = data_frames(conn_id, chunks);
    let input = arrival.map_values(|k: int| (frames[k].seq, frames[k].payload));
    assert(cut_from(input, chunks)) by {
        assert forall|i: int| 0 <= i < input.len() implies 1 <= (#[trigger] input[i]).0
            <= chunks.len() && input[i].1 == chunks[input[i].0 - 1] by {
            assert(0 <= arrival[i] < chunks.len());
        }
    }
    law_delivers_in_order(max_bytes, max_entries, input, chunks);
    let out = run(fresh(max_bytes, max_entries), input).1;
    assert(out.len() == chunks.len() ==> out =~= chunks);
}

/// Without an overflow, each number that was pushed has been delivered or waits.
proof fn lemma_pushed_is_held(
    max_bytes: nat,
    max_entries: nat,
    input: Seq<(u64, Seq<u8>)>,
    stream: Seq<Seq<u8>>,
    i: int,
)
    requires
        cut_from(input, stream),
        stream.len() <= u64::MAX,
        !overflows(fresh(max_bytes, max_entries), input),
        0 <= i < input.len(),
    ensures
        ({
            let (v, out) = run(fresh(max_bytes, max_entries), input);
            input[i].0 <= out.len() || v.pending.contains_key(input[i].0)
        }),
    decreases input.len(),
{
    let start = fresh(max_bytes, max_entries);
    let prev = input.drop_last();
    let (w, out) = run(start, prev);
    let last = input[input.len() - 1];
    assert(cut_from(prev, stream)) by {
        assert forall|j: int| 0 <= j < prev.len() implies 1 <= (#[trigger] prev[j]).0
            <= stream.len() && prev[j].1 == stream[prev[j].0 - 1] by {
            assert(input[j] == prev[j]);
        }
    }
    lemma_run_follows(max_bytes, max_entries, prev, stream);
    lemma_push_follows(w, out, stream, last.0, last.1);
    lemma_gap(w, last.0 + 1);
    if i < prev.len() {
        lemma_pushed_is_held(max_bytes, max_entries, prev, stream, i);
        assert(prev[i] == input[i]);
    }
}

/// How many bytes a list of chunks holds.
pub open spec fn stream_bytes(stream: Seq<Seq<u8>>) -> nat
    decreases stream.len(),
{
    if stream.len() == 0 {
        0
    } else {
        stream_bytes(stream.drop_last()) + stream.last().len()
    }
}

/// Chunks of a stream are no more, and hold no more bytes, than the stream.
proof fn lemma_held_is_no_more(m: Map<u64, Seq<u8>>, stream: Seq<Seq<u8>>)
    requires
        m.dom().finite(),
        stream.len() <= u64::MAX,
        forall|s: u64| #[trigger]
            m.contains_key(s) ==> 1 <= s <= stream.len() && m[s] == stream[s - 1],
    ensures
        m.dom().len() <= stream.len(),
        total(m, chunk_len()) <= stream_bytes(stream),
    decreases stream.len(),
{
    if stream.len() == 0 {
        assert(m =~= Map::<u64, Seq<u8>>::empty());
        lemma_total_empty::<u64, Seq<u8>>(chunk_len());
    } else {
        let n = stream.len() as u64;
        let less = stream.drop_last();
        let rest = m.remove(n);
        assert forall|s: u64| #[trigger] rest.contains_key(s) implies 1 <= s <= less.len()
            && rest[s] == less[s - 1] by {
            assert(m.contains_key(s));
        }
        lemma_held_is_no_more(rest, less);
        if m.contains_key(n) {
            lemma_total_remove(m, n, chunk_len());
        } else {
            assert(rest =~= m);
        }
    }
}

/// A stream that is no larger than the window never overflows it, however its chunks
/// arrive.
pub proof fn law_what_fits_never_overflows(
    max_bytes: nat,
    max_entries: nat,
    input: Seq<(u64, Seq<u8>)>,
    stream: Seq<Seq<u8>>,
)
    requires
        cut_from(input, stream),
        stream.len() <= u64::MAX,
        stream.len() <= max_entries,
        stream_bytes(stream) <= max_bytes,
    ensures
        !overflows(fresh(max_bytes, max_entries), input),
    decreases input.len(),
{
    if input.len() > 0 {
        let start = fresh(max_bytes, max_entries);
        let prev = input.drop_last();
        let last = input[input.len() - 1];
        assert(cut_from(prev, stream)) by {
            assert forall|j: int| 0 <= j < prev.len() implies 1 <= (#[trigger] prev[j]).0
                <= stream.len() && prev[j].1 == stream[prev[j].0 - 1] by {
                assert(input[j] == prev[j]);
            }
        }
        law_what_fits_never_overflows(max_bytes, max_entries, prev, stream);
        lemma_run_follows(max_bytes, max_entries, prev, stream);
        lemma_run_bounded(max_bytes, max_entries, prev);
        let (w, out) = run(start, prev);
        if !w.pending.contains_key(last.0) {
            lemma_held_is_no_more(w.pending.insert(last.0, last.1), stream);
            lemma_total_insert(w.pending, last.0, last.1, chunk_len());
        }
    }
}

/// A fresh window stays within its limits, and keeps them.
proof fn lemma_run_bounded(max_bytes: nat, max_entries: nat, input: Seq<(u64, Seq<u8>)>)
    ensures
        ({
            let v = run(fresh(max_bytes, max_entries), input).0;
            &&& v.inv()
            &&& v.max_bytes == max_bytes
            &&& v.max_entries == max_entries
        }),
    decreases input.len(),
{
    if input.len() == 0 {
        lemma_total_empty::<u64, Seq<u8>>(chunk_len());
    } else {
        let prev = input.drop_last();
        lemma_run_bounded(max_bytes, max_entries, prev);
        law_window_stays_bounded(
            run(fresh(max_bytes, max_entries), prev).0,
            input.last().0,
            input.last().1,
        );
    }
}

/// A push keeps the window within its two limits.
pub proof fn law_window_stays_bounded(v: ReorderView, seq: u64, payload: Seq<u8>)
    requires
        v.inv(),
    ensures
        v.push(seq, payload).0.inv(),
{
    let next = v.push(seq, payload).0;
    if seq < v.expected || v.pending.contains_key(seq) {
    } else if seq == v.expected {
        let to = v.gap(seq + 1);
        lemma_gap(v, seq + 1);
        lemma_total_restrict(v.pending, Set::new(|s: u64| s >= to));
        assert forall|s: u64| #[trigger] next.pending.contains_key(s) implies s
            > next.expected by {
            assert(s >= to);
            assert(to <= u64::MAX);
        }
    } else if v.has_room(payload.len()) {
        lemma_total_insert(v.pending, seq, payload, chunk_len());
    }
}

/// Keeping only some chunks makes a map no larger.
proof fn lemma_total_restrict(m: Map<u64, Seq<u8>>, keep: Set<u64>)
    requires
        m.dom().finite(),
    ensures
        m.restrict(keep).dom().finite(),
        m.restrict(keep).dom().len() <= m.dom().len(),
        total(m.restrict(keep), chunk_len()) <= total(m, chunk_len()),
    decreases m.dom().len(),
{
    let r = m.restrict(keep);
    assert(r.dom() =~= m.dom().intersect(keep));
    vstd::set_lib::lemma_len_intersect(m.dom(), keep);
    if m.dom().len() > 0 {
        let k = m.dom().choose();
        assert(m.dom().contains(k)) by {
            vstd::set_lib::lemma_set_empty_equivalency_len(m.dom());
        }
        lemma_total_remove(m, k, chunk_len());
        lemma_total_restrict(m.remove(k), keep);
        if keep.contains(k) {
            lemma_total_remove(r, k, chunk_len());
            assert(r.remove(k) =~= m.remove(k).restrict(keep));
        } else {
            assert(r =~= m.remove(k).restrict(keep));
        }
    } else {
        assert(r =~= m);
    }
}

/// A number that was taken in is a duplicate from then on, as long as the count of
/// numbers has not gone around: pushing it again, with whatever payload, changes
/// nothing and asks for no reset.
pub proof fn law_accepted_once(v: ReorderView, seq: u64, first: Seq<u8>, again: Seq<u8>)
    requires
        v.inv(),
        v.push(seq, first).1.accepted,
        v.push(seq, first).0.expected != 0,
    ensures
        v.push(seq, first).0.push(seq, again) == (
            v.push(seq, first).0,
            (PushView { ready: Seq::empty(), accepted: false, overflow: false }),
        ),
{
    if seq == v.expected {
        lemma_gap(v, seq + 1);
    }
}

} // verus!
