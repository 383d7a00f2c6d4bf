//! The tunnels between the two ends, and which of them takes a frame.

use crate::buf::{buffer_clear, bytes_content, bytes_mut_content};
use crate::clock::{elapsed, span, SECOND};
use crate::frame::{Frame, FrameView};
use crate::reassembler::frame_views;
use crate::reorder::contents;
use bytes::{Bytes, BytesMut};
use tokio::sync::mpsc;
use vstd::prelude::*;

verus! {

/// Most frames that wait for one tunnel.
pub const TUNNEL_CHANNEL_CAP: usize = 128;

/// How many places the cursor of the weighted choice goes through.
pub const WEIGHT_GRID: usize = 1024;

/// Most live tunnels that a reassembler accepts.
pub const MAX_TUNNEL_LINKS: usize = 64;

/// How long a live tunnel may carry nothing, in either direction.
pub const LINK_IDLE_TIMEOUT: u64 = 600 * SECOND;

/// How long a frame waits for a full link before every link is tried again.
pub const FULL_RETRY: u64 = SECOND / 100;

// ── Channels ──────────────────────────────────────────────────────────

#[verifier::external_type_specification]
#[verifier::external_body]
#[verifier::reject_recursive_types(T)]
pub struct ExSender<T>(mpsc::Sender<T>);

#[verifier::external_type_specification]
#[verifier::external_body]
#[verifier::reject_recursive_types(T)]
pub struct ExReceiver<T>(mpsc::Receiver<T>);

/// How many frames a channel was made to hold.
pub uninterp spec fn channel_limit(tx: mpsc::Sender<Frame>) -> nat;

/// The frames that a channel has taken through a sender, the first one first.
pub uninterp spec fn frames_put(tx: mpsc::Sender<Frame>) -> Seq<FrameView>;

/// The chunks that a channel has taken through a sender, the first one first.
pub uninterp spec fn chunks_put(tx: mpsc::Sender<Bytes>) -> Seq<Seq<u8>>;

/// What came of offering a frame to a channel.
#[derive(Debug, Clone, Copy, PartialEq, Eq, Structural)]
pub enum Offer {
    /// The channel took the frame.
    Sent,
    /// The channel holds as many frames as it can.
    Full,
    /// Nobody reads the channel any more.
    Closed,
}

/// `mpsc::channel` makes a channel that holds the given number of frames and has taken
/// none.
#[verifier::external_body]
fn frame_channel(limit: usize) -> (r: (mpsc::Sender<Frame>, mpsc::Receiver<Frame>))
    requires
        1 <= limit <= TUNNEL_CHANNEL_CAP,
    ensures
        channel_limit(r.0) == limit,
        frames_put(r.0).len() == 0,
{
    mpsc::channel(limit)
}

/// `mpsc::Sender::try_send` puts a frame into the channel at once, behind those that it
/// took before, or not at all. Which of the two depends on the reader, and is not
/// stated.
#[verifier::external_body]
fn offer_frame(tx: &mut mpsc::Sender<Frame>, frame: Frame) -> (r: Offer)
    ensures
        channel_limit(*final(tx)) == channel_limit(*old(tx)),
        r == Offer::Sent ==> frames_put(*final(tx)) == frames_put(*old(tx)).push(frame@),
        r != Offer::Sent ==> frames_put(*final(tx)) == frames_put(*old(tx)),
{
    match tx.try_send(frame) {
        Ok(()) => Offer::Sent,
        Err(mpsc::error::TrySendError::Full(_)) => Offer::Full,
        Err(mpsc::error::TrySendError::Closed(_)) => Offer::Closed,
    }
}

/// `mpsc::Sender::capacity` counts the frames that the channel could still take, which
/// is never more than it was made to hold. How many they are depends on the reader.
#[verifier::external_body]
fn free_slots(tx: &mpsc::Sender<Frame>) -> (r: usize)
    ensures
        r <= channel_limit(*tx),
{
    tx.capacity()
}

/// `mpsc::Sender::try_send` puts a chunk into the channel at once, behind those that it
/// took before, or not at all. Which of the two depends on the reader, and is not
/// stated.
#[verifier::external_body]
fn offer_chunk(tx: &mut mpsc::Sender<Bytes>, chunk: Bytes) -> (r: bool)
    ensures
        r ==> chunks_put(*final(tx)) == chunks_put(*old(tx)).push(bytes_content(chunk)),
        !r ==> chunks_put(*final(tx)) == chunks_put(*old(tx)),
{
    tx.try_send(chunk).is_ok()
}

/// A list of outcomes holds no refusal.
pub open spec fn all_taken(outcomes: Seq<bool>) -> bool {
    forall|i: int| 0 <= i < outcomes.len() ==> #[trigger] outcomes[i]
}

/// The chunks of a list that were taken, going by the outcome of each.
pub open spec fn taken(chunks: Seq<Seq<u8>>, outcomes: Seq<bool>) -> Seq<Seq<u8>>
    decreases outcomes.len(),
{
    if outcomes.len() == 0 {
        Seq::empty()
    } else {
        let before = taken(chunks, outcomes.drop_last());
        if outcomes.last() {
            before.push(chunks[outcomes.len() - 1])
        } else {
            before
        }
    }
}

/// What follows when a list of chunks is offered to a channel.
#[derive(Debug, Clone, Copy, PartialEq, Eq, Structural)]
pub enum ChunkStep {
    /// Offer the chunk at this place of the list.
    Offer(usize),
    /// That is all, and every chunk was taken or one was not.
    Done(bool),
}

/// How offering `n` chunks begins: with the first one, if there is one.
pub fn first_chunk(n: usize) -> (r: ChunkStep)
    ensures
        r == (if n > 0 {
            ChunkStep::Offer(0)
        } else {
            ChunkStep::Done(true)
        }),
{
    if n > 0 {
        ChunkStep::Offer(0)
    } else {
        ChunkStep::Done(true)
    }
}

/// How offering all of `n` chunks goes on after the `i`-th one was taken or refused,
/// where all before it were taken (`ok`) or one was not: the next one follows either way.
pub fn after_chunk(i: usize, n: usize, ok: bool, taken: bool) -> (r: ChunkStep)
    requires
        i < n,
    ensures
        r == (if i + 1 < n {
            ChunkStep::Offer((i + 1) as usize)
        } else {
            ChunkStep::Done(ok && taken)
        }),
{
    if i + 1 < n {
        ChunkStep::Offer(i + 1)
    } else {
        ChunkStep::Done(ok && taken)
    }
}

/// How offering `n` chunks up to the first refusal goes on after the `i`-th one was taken
/// or refused: the next one follows only if it was taken.
pub fn after_chunk_unless_refused(i: usize, n: usize, taken: bool) -> (r: ChunkStep)
    requires
        i < n,
    ensures
        r == (if !taken {
            ChunkStep::Done(false)
        } else if i + 1 < n {
            ChunkStep::Offer((i + 1) as usize)
        } else {
            ChunkStep::Done(true)
        }),
{
    if !taken {
        ChunkStep::Done(false)
    } else if i + 1 < n {
        ChunkStep::Offer(i + 1)
    } else {
        ChunkStep::Done(true)
    }
}

/// How many chunks of a list have been offered before a step.
spec fn offered_before(step: ChunkStep, n: int) -> int {
    match step {
        ChunkStep::Offer(i) => i as int,
        ChunkStep::Done(_) => n,
    }
}

/// Offers chunks to a channel, in order. Returns whether all were taken, and whether each
/// was. Which are taken is up to the reader; `after_chunk` says that a refusal does not
/// keep the next chunk from being offered.
pub fn offer_all(tx: &mut mpsc::Sender<Bytes>, chunks: &Vec<Bytes>) -> (r: (bool, Vec<bool>))
    ensures
        r.1@.len() == chunks@.len(),
        r.0 == all_taken(r.1@),
        chunks_put(*final(tx)) == chunks_put(*old(tx)) + taken(contents(chunks@), r.1@),
{
    let ghost all = contents(chunks@);
    let ghost start = chunks_put(*tx);
    let n: usize = chunks.len();
    let mut outcomes: Vec<bool> = Vec::new();
    let mut ok: bool = true;
    let mut step = first_chunk(n);
    assert(start + taken(all, outcomes@) =~= start);
    loop
        invariant
            n == chunks@.len(),
            all == contents(chunks@),
            start == chunks_put(*old(tx)),
            step is Offer ==> step->Offer_0 < n,
            step is Done ==> step->Done_0 == ok,
            outcomes@.len() == offered_before(step, n as int),
            ok == all_taken(outcomes@),
            chunks_put(*tx) == start + taken(all, outcomes@),
        decreases n - offered_before(step, n as int),
    {
        let i: usize = match step {
            ChunkStep::Done(all_of_them) => {
                return (all_of_them, outcomes);
            },
            ChunkStep::Offer(i) => i,
        };
        let one: bool = offer_chunk(tx, chunks[i].clone());
        let ghost was = outcomes@;
        outcomes.push(one);
        proof {
            assert(outcomes@.drop_last() =~= was);
            assert(all[i as int] == bytes_content(chunks@[i as int]));
            assert(start + taken(all, was).push(all[i as int]) =~= (start + taken(all, was)).push(
                all[i as int],
            ));
            if ok && one {
                assert(all_taken(outcomes@));
            } else if !one {
                assert(!outcomes@[i as int]);
            } else {
                let j = choose|j: int| 0 <= j < was.len() && !#[trigger] was[j];
                assert(!outcomes@[j]);
            }
        }
        step = after_chunk(i, n, ok, one);
        ok = ok && one;
    }
}

/// Offers chunks to a channel, in order, up to the first that is refused. Returns
/// whether all were taken, and how many were. Which are taken is up to the reader;
/// `after_chunk_unless_refused` says what follows each.
pub fn offer_until_refused(tx: &mut mpsc::Sender<Bytes>, chunks: &Vec<Bytes>) -> (r: (bool, usize))
    ensures
        r.1 <= chunks@.len(),
        r.0 == (r.1 == chunks@.len()),
        chunks_put(*final(tx)) == chunks_put(*old(tx)) + contents(chunks@).take(r.1 as int),
{
    let ghost all = contents(chunks@);
    let ghost start = chunks_put(*tx);
    let n: usize = chunks.len();
    let mut count: usize = 0;
    let mut step = first_chunk(n);
    assert(start + all.take(0) =~= start);
    loop
        invariant
            n == chunks@.len(),
            all == contents(chunks@),
            start == chunks_put(*old(tx)),
            step is Offer ==> step->Offer_0 == count && count < n,
            step is Done ==> count <= n && step->Done_0 == (count == n),
            chunks_put(*tx) == start + all.take(count as int),
        decreases n - offered_before(step, n as int),
    {
        let i: usize = match step {
            ChunkStep::Done(all_of_them) => {
                return (all_of_them, count);
            },
            ChunkStep::Offer(i) => i,
        };
        let one: bool = offer_chunk(tx, chunks[i].clone());
        if one {
            proof {
                assert(all[i as int] == bytes_content(chunks@[i as int]));
                assert(start + all.take(i + 1) =~= (start + all.take(i as int)).push(all[i as int]));
            }
            count = count + 1;
        }
        step = after_chunk_unless_refused(i, n, one);
    }
}

/// Of a list of chunks the channel has all, in order, when none was refused.
pub proof fn law_all_or_a_refusal(chunks: Seq<Seq<u8>>, outcomes: Seq<bool>)
    requires
        outcomes.len() <= chunks.len(),
    ensures
        all_taken(outcomes) ==> taken(chunks, outcomes) == chunks.take(outcomes.len() as int),
        taken(chunks, outcomes).len() == outcomes.len() <==> all_taken(outcomes),
        taken(chunks, outcomes).len() <= outcomes.len(),
    decreases outcomes.len(),
{
    if outcomes.len() == 0 {
        assert(chunks.take(0) =~= Seq::empty());
    } else {
        let prev = outcomes.drop_last();
        let n = outcomes.len() as int;
        law_all_or_a_refusal(chunks, prev);
        assert(chunks.take(n) =~= chunks.take(n - 1).push(chunks[n - 1]));
        if all_taken(prev) {
            assert forall|i: int| 0 <= i < n && outcomes.last() implies #[trigger] outcomes[i] by {
                if i < n - 1 {
                    assert(prev[i]);
                }
            }
        } else {
            let j = choose|j: int| 0 <= j < prev.len() && !#[trigger] prev[j];
            assert(!outcomes[j]);
        }
        if !outcomes.last() {
            assert(!outcomes[n - 1]);
        }
    }
}

// ── Tunnel links ──────────────────────────────────────────────────────

/// One tunnel, as the side that sends into it sees it.
pub struct TunnelLink {
    /// Tells this link apart from every other one.
    pub id: u64,
    pub tx: mpsc::Sender<Frame>,
    pub alive: bool,
    pub bytes_sent: u64,
    pub bytes_recv: u64,
    pub frames_sent: u64,
    pub frames_recv: u64,
    /// When the tunnel last carried a frame, or was set up.
    pub last_active: u64,
    /// The rate at which the tunnel was seen to drain, as the bits of a number that is
    /// not negative; such bits are ordered as the numbers are. 0 when never measured.
    pub rate_bps: u64,
}

/// A [`TunnelLink`] as mathematical values, with the frames that its channel has taken
/// through it in place of the channel.
#[verifier::ext_equal]
pub struct LinkView {
    pub id: u64,
    pub alive: bool,
    pub bytes_sent: u64,
    pub bytes_recv: u64,
    pub frames_sent: u64,
    pub frames_recv: u64,
    pub last_active: u64,
    pub rate_bps: u64,
    pub queued: Seq<FrameView>,
}

impl View for TunnelLink {
    type V = LinkView;

    open spec fn view(&self) -> LinkView {
        LinkView {
            id: self.id,
            alive: self.alive,
            bytes_sent: self.bytes_sent,
            bytes_recv: self.bytes_recv,
            frames_sent: self.frames_sent,
            frames_recv: self.frames_recv,
            last_active: self.last_active,
            rate_bps: self.rate_bps,
            queued: frames_put(self.tx),
        }
    }
}

impl LinkView {
    pub open spec fn new(id: u64, queued: Seq<FrameView>) -> LinkView {
        LinkView {
            id,
            alive: true,
            bytes_sent: 0,
            bytes_recv: 0,
            frames_sent: 0,
            frames_recv: 0,
            last_active: 0,
            rate_bps: 0,
            queued,
        }
    }

    /// The link is alive and has carried nothing for too long.
    pub open spec fn is_idle(self, now: u64) -> bool {
        self.alive && span(now, self.last_active) > LINK_IDLE_TIMEOUT
    }

    /// The link, dead if it has carried nothing for too long.
    pub open spec fn unless_idle(self, now: u64) -> LinkView {
        if self.is_idle(now) {
            self.dead()
        } else {
            self
        }
    }

    /// The link is known to lead nowhere.
    pub open spec fn dead(self) -> LinkView {
        LinkView { alive: false, ..self }
    }
}

impl TunnelLink {
    /// A live link into a channel, which holds no more than a tunnel's channel does.
    pub fn new(tx: mpsc::Sender<Frame>) -> (r: Self)
        requires
            channel_limit(tx) <= TUNNEL_CHANNEL_CAP,
        ensures
            r@ == LinkView::new(0, frames_put(tx)),
            r.tx == tx,
    {
        TunnelLink {
            id: 0,
            tx,
            alive: true,
            bytes_sent: 0,
            bytes_recv: 0,
            frames_sent: 0,
            frames_recv: 0,
            last_active: 0,
            rate_bps: 0,
        }
    }

    /// A live link, and the end of its channel that the tunnel's writer reads.
    pub fn open() -> (r: (Self, mpsc::Receiver<Frame>))
        ensures
            r.0@ == LinkView::new(0, Seq::empty()),
            channel_limit(r.0.tx) == TUNNEL_CHANNEL_CAP,
    {
        let (tx, rx) = frame_channel(TUNNEL_CHANNEL_CAP);
        assert(frames_put(tx) =~= Seq::empty());
        (Self::new(tx), rx)
    }
}

// ── The pool ──────────────────────────────────────────────────────────

/// A pool of links as mathematical values.
#[verifier::ext_equal]
pub struct PoolView {
    pub links: Seq<LinkView>,
    /// The cursor of both ways to choose a link.
    pub rr: usize,
    /// The id of the next link.
    pub next_id: u64,
}

/// The links of a list that are alive.
pub open spec fn live(links: Seq<LinkView>) -> Seq<LinkView>
    decreases links.len(),
{
    if links.len() == 0 {
        Seq::empty()
    } else if links.last().alive {
        live(links.drop_last()).push(links.last())
    } else {
        live(links.drop_last())
    }
}

/// Where the first link with an id stands in a list, or its length if none has it.
pub open spec fn place(links: Seq<LinkView>, id: u64) -> int
    decreases links.len(),
{
    if links.len() == 0 || links[0].id == id {
        0
    } else {
        1 + place(links.skip(1), id)
    }
}

proof fn lemma_place(links: Seq<LinkView>, id: u64)
    ensures
        0 <= place(links, id) <= links.len(),
        place(links, id) < links.len() ==> links[place(links, id)].id == id,
        forall|j: int| 0 <= j < place(links, id) ==> (#[trigger] links[j]).id != id,
    decreases links.len(),
{
    if links.len() > 0 && links[0].id != id {
        let rest = links.skip(1);
        lemma_place(rest, id);
        assert forall|j: int| 0 <= j < place(links, id) implies (#[trigger] links[j]).id != id by {
            if j > 0 {
                assert(rest[j - 1] == links[j]);
            }
        }
    }
}

/// What a round over the links does next.
#[derive(Debug, Clone, Copy, PartialEq, Eq, Structural)]
pub enum RoundStep {
    /// Offer the frame to the link at this place of the round.
    Offer(usize),
    /// The round is over, and the frame was taken or was not.
    Done(bool),
}

/// Which of `n` links stands at the `i`-th place of a round that begins at `start`.
pub open spec fn around(start: int, i: int, n: int) -> int {
    if i < n - start {
        start + i
    } else {
        i - (n - start)
    }
}

/// Which of `n` links stands at the `i`-th place of a round that begins at `start`.
fn link_at(start: usize, i: usize, n: usize) -> (r: usize)
    requires
        start < n,
        i < n,
    ensures
        r == around(start as int, i as int, n as int),
        r < n,
{
    if i < n - start {
        start + i
    } else {
        i - (n - start)
    }
}

/// No link at the places `from` to `to - 1` of a round is alive.
pub open spec fn none_live(links: Seq<LinkView>, start: int, from: int, to: int) -> bool {
    forall|p: int|
        from <= p < to ==> !links[#[trigger] around(start, p, links.len() as int)].alive
}

/// How much of a round is left.
spec fn steps_left(step: RoundStep, n: int) -> int {
    match step {
        RoundStep::Offer(i) => n - i,
        RoundStep::Done(_) => 0,
    }
}

/// A round that began with the pool `moved` has come to `here`, with these outcomes.
spec fn so_far(
    moved: PoolView,
    here: PoolView,
    f: FrameView,
    start: int,
    outcomes: Seq<Offer>,
    step: RoundStep,
) -> bool {
    match step {
        RoundStep::Done(sent) => moved.round(f, start, 0, outcomes, here, sent),
        RoundStep::Offer(i) => {
            &&& 0 <= i < here.links.len()
            &&& here.links[around(start, i as int, here.links.len() as int)].alive
            &&& forall|rest: Seq<Offer>, end: PoolView, sent: bool| #[trigger]
                here.round(f, start, i as int, rest, end, sent) ==> moved.round(
                    f,
                    start,
                    0,
                    outcomes + rest,
                    end,
                    sent,
                )
        },
    }
}

/// A round passes over links that are not alive.
proof fn lemma_round_skips(
    p: PoolView,
    f: FrameView,
    start: int,
    from: int,
    to: int,
    outcomes: Seq<Offer>,
    end: PoolView,
    sent: bool,
)
    requires
        0 <= start < p.links.len(),
        0 <= from <= to <= p.links.len(),
        none_live(p.links, start, from, to),
    ensures
        p.round(f, start, from, outcomes, end, sent) == p.round(f, start, to, outcomes, end, sent),
    decreases to - from,
{
    if from < to {
        let n = p.links.len() as int;
        lemma_around(start, from, n);
        assert(!p.links[around(start, from, n)].alive);
        lemma_round_skips(p, f, start, from + 1, to, outcomes, end, sent);
    }
}

/// A round that has come to the place `from` has come to its next step.
proof fn lemma_round_so_far(
    moved: PoolView,
    here: PoolView,
    f: FrameView,
    start: int,
    from: int,
    outcomes: Seq<Offer>,
    step: RoundStep,
)
    requires
        0 <= start < here.links.len(),
        0 <= from <= here.links.len(),
        here.goes_on(start, from, step),
        from == 0 ==> moved == here && outcomes.len() == 0,
        from > 0 ==> forall|rest: Seq<Offer>, end: PoolView, sent: bool| #[trigger]
            here.round(f, start, from, rest, end, sent) ==> moved.round(
                f,
                start,
                0,
                outcomes + rest,
                end,
                sent,
            ),
    ensures
        so_far(moved, here, f, start, outcomes, step),
{
    let to = match step {
        RoundStep::Offer(i) => i as int,
        RoundStep::Done(_) => here.links.len() as int,
    };
    assert forall|rest: Seq<Offer>, end: PoolView, sent: bool| #[trigger]
        here.round(f, start, to, rest, end, sent) implies moved.round(
        f,
        start,
        0,
        outcomes + rest,
        end,
        sent,
    ) by {
        lemma_round_skips(here, f, start, from, to, rest, end, sent);
        assert(here.round(f, start, from, rest, end, sent));
        if from == 0 {
            assert(outcomes + rest =~= rest);
        }
    }
    if step is Done {
        let none = Seq::<Offer>::empty();
        assert(here.round(f, start, to, none, here, false));
        assert(outcomes + none =~= outcomes);
    }
}

/// The ids of the links of a list that have carried nothing for too long.
pub open spec fn idle_ids(links: Seq<LinkView>, now: u64) -> Seq<u64>
    decreases links.len(),
{
    if links.len() == 0 {
        Seq::empty()
    } else if links.last().is_idle(now) {
        idle_ids(links.drop_last(), now).push(links.last().id)
    } else {
        idle_ids(links.drop_last(), now)
    }
}

impl PoolView {
    /// The pool after idle links were given up.
    pub open spec fn without_idle(self, now: u64) -> PoolView {
        PoolView { links: self.links.map_values(|l: LinkView| l.unless_idle(now)), ..self }
    }

    /// The pool without its dead links. When any leaves, the cursor starts anew.
    pub open spec fn compacted(self) -> PoolView {
        PoolView {
            links: live(self.links),
            rr: if live(self.links).len() != self.links.len() {
                0
            } else {
                self.rr
            },
            ..self
        }
    }

    /// The pool with the `k`-th link dead.
    pub open spec fn with_dead(self, k: int) -> PoolView {
        PoolView { links: self.links.update(k, self.links[k].dead()), ..self }
    }

    /// The pool with the link with an id dead, if there is one.
    pub open spec fn without(self, id: u64) -> PoolView {
        let k = place(self.links, id);
        if k < self.links.len() {
            self.with_dead(k)
        } else {
            self
        }
    }

    /// The pool after the channel of the `k`-th link took a frame.
    pub open spec fn with_queued(self, k: int, f: FrameView) -> PoolView {
        let link = self.links[k];
        PoolView {
            links: self.links.update(k, LinkView { queued: link.queued.push(f), ..link }),
            ..self
        }
    }

    /// The pool after a frame was offered to the `k`-th link, with this outcome: taken,
    /// or refused, and the link dead where its channel is closed.
    pub open spec fn offered(self, k: int, f: FrameView, outcome: Offer) -> PoolView {
        match outcome {
            Offer::Sent => self.with_queued(k, f),
            Offer::Full => self,
            Offer::Closed => self.with_dead(k),
        }
    }

    /// Going round the links from the cursor on, `i` of them having been passed, with
    /// these outcomes of the offers that are made: dead links are passed over, the
    /// first link that takes the frame ends the round, and a link whose channel is
    /// closed is dead from then on. Says where the round ends and whether the frame
    /// was taken.
    pub open spec fn round(
        self,
        f: FrameView,
        start: int,
        i: int,
        outcomes: Seq<Offer>,
        end: PoolView,
        sent: bool,
    ) -> bool
        decreases self.links.len() - i,
    {
        let n = self.links.len() as int;
        let k = (start + i) % n;
        if i < 0 || i >= n {
            outcomes.len() == 0 && end == self && !sent
        } else if !self.links[k].alive {
            self.round(f, start, i + 1, outcomes, end, sent)
        } else if outcomes.len() == 0 {
            false
        } else {
            match outcomes[0] {
                Offer::Sent => outcomes.len() == 1 && end == self.with_queued(k, f) && sent,
                Offer::Full => self.round(f, start, i + 1, outcomes.skip(1), end, sent),
                Offer::Closed => {
                    proof {
                        assert(0 <= (start + i) % n < n) by (nonlinear_arith)
                            requires
                                n > 0,
                        ;
                    }
                    self.with_dead(k).round(f, start, i + 1, outcomes.skip(1), end, sent)
                },
            }
        }
    }

    /// How a round goes on from the place `from`: with an offer to the first live link
    /// from there on, or not at all when none is alive.
    pub open spec fn goes_on(self, start: int, from: int, step: RoundStep) -> bool {
        let n = self.links.len() as int;
        match step {
            RoundStep::Done(sent) => !sent && none_live(self.links, start, from, n),
            RoundStep::Offer(j) => {
                &&& from <= j < n
                &&& self.links[around(start, j as int, n)].alive
                &&& none_live(self.links, start, from, j as int)
            },
        }
    }

    /// What sending a frame may come to, over all outcomes of the offers.
    pub open spec fn sends(self, f: FrameView, end: PoolView, sent: bool) -> bool {
        if self.links.len() == 0 {
            end == self && !sent
        } else {
            exists|outcomes: Seq<Offer>| #[trigger]
                PoolView { rr: self.rr.wrapping_add(1), ..self }.round(
                    f,
                    self.rr as int % self.links.len() as int,
                    0,
                    outcomes,
                    end,
                    sent,
                )
        }
    }

    /// A link may be chosen: it is alive and was not found full.
    pub open spec fn is_candidate(self, full: Seq<u64>, k: int) -> bool {
        0 <= k < self.links.len() && self.links[k].alive && !full.contains(self.links[k].id)
    }

    /// Of the live links, the `k`-th drains fastest; of several, it is the last.
    pub open spec fn is_best(self, k: int) -> bool {
        &&& 0 <= k < self.links.len() && self.links[k].alive
        &&& forall|j: int|
            0 <= j < self.links.len() && (#[trigger] self.links[j]).alive ==> self.links[j].rate_bps
                < self.links[k].rate_bps || (self.links[j].rate_bps == self.links[k].rate_bps && j
                <= k)
    }
}

/// Which of the candidates a weighted choice falls on, going by whether the cursor lies
/// below the sum of the weights up to and including each: the first one, or the last
/// candidate where rounding leaves none.
pub fn choose_below(below: &Vec<bool>) -> (r: usize)
    requires
        below@.len() > 0,
    ensures
        r < below@.len(),
        forall|i: int| 0 <= i < r ==> !#[trigger] below@[i],
        below@[r as int] || r == below@.len() - 1,
{
    let mut i: usize = 0;
    while i < below.len()
        invariant
            i <= below@.len(),
            forall|j: int| 0 <= j < i ==> !#[trigger] below@[j],
        decreases below.len() - i,
    {
        if below[i] {
            return i;
        }
        i = i + 1;
    }
    below.len() - 1
}

/// What came of waiting for a full link.
#[derive(Debug, Clone, Copy, PartialEq, Eq, Structural)]
pub enum Waited {
    /// The link took the frame.
    Taken,
    /// The link's channel is closed.
    Closed,
    /// The link was full all the time.
    TimedOut,
}

/// What to do with a frame that waits for a tunnel.
#[derive(Debug)]
pub enum SendStep {
    /// Offer it to one of these links, chosen by weight.
    Choose(Vec<usize>),
    /// Every live link is full: wait for this one, but only for `FULL_RETRY`, so that a
    /// slot that frees in another one does not go unused.
    WaitFor(usize),
    /// No link is alive: wait for a new one.
    WaitForLink,
}

/// The links to the other end.
pub struct TunnelPool {
    links: Vec<TunnelLink>,
    rr: usize,
    next_id: u64,
}

/// The views of a list of links.
pub open spec fn link_views(links: Seq<TunnelLink>) -> Seq<LinkView> {
    links.map_values(|l: TunnelLink| l@)
}

impl View for TunnelPool {
    type V = PoolView;

    closed spec fn view(&self) -> PoolView {
        PoolView { links: link_views(self.links@), rr: self.rr, next_id: self.next_id }
    }
}

impl TunnelPool {
    /// No link's channel holds more than a tunnel's channel does.
    pub closed spec fn wf(&self) -> bool {
        forall|i: int|
            0 <= i < self.links@.len() ==> channel_limit((#[trigger] self.links@[i]).tx)
                <= TUNNEL_CHANNEL_CAP
    }

    /// A pool without links.
    pub fn new() -> (r: Self)
        ensures
            r.wf(),
            r@ == (PoolView { links: Seq::empty(), rr: 0, next_id: 1 }),
    {
        let r = TunnelPool { links: Vec::new(), rr: 0, next_id: 1 };
        assert(r@.links =~= Seq::empty());
        r
    }

    /// Adds a link that was just set up and returns the id that it is given.
    pub fn add(&mut self, link: TunnelLink, now: u64) -> (r: u64)
        requires
            old(self).wf(),
            channel_limit(link.tx) <= TUNNEL_CHANNEL_CAP,
        ensures
            final(self).wf(),
            r == old(self)@.next_id,
            final(self)@ == (PoolView {
                links: old(self)@.links.push(LinkView { id: r, last_active: now, ..link@ }),
                next_id: old(self)@.next_id.wrapping_add(1),
                ..old(self)@
            }),
    {
        let id: u64 = self.next_id;
        let mut link = link;
        link.id = id;
        link.last_active = now;
        self.links.push(link);
        self.next_id = id.wrapping_add(1);
        assert(self@.links =~= old(self)@.links.push(link@));
        id
    }

    /// How many links there are, dead ones included.
    pub fn link_count(&self) -> (r: usize)
        ensures
            r == self@.links.len(),
    {
        self.links.len()
    }

    /// How many links are alive.
    pub fn alive_count(&self) -> (r: usize)
        ensures
            r == live(self@.links).len(),
    {
        let ghost all = self@.links;
        let mut n: usize = 0;
        let mut i: usize = 0;
        assert(all.take(0) =~= Seq::empty());
        while i < self.links.len()
            invariant
                i <= self.links@.len(),
                n <= i,
                all == link_views(self.links@),
                n == live(all.take(i as int)).len(),
            decreases self.links.len() - i,
        {
            proof {
                assert(all.take(i + 1).drop_last() =~= all.take(i as int));
                assert(all.take(i + 1).last() == self.links@[i as int]@);
            }
            if self.links[i].alive {
                n = n + 1;
            }
            i = i + 1;
        }
        assert(all.take(i as int) =~= all);
        n
    }

    /// How many links are alive, and how many there are.
    pub fn stats(&self) -> (r: (usize, usize))
        ensures
            r.0 == live(self@.links).len(),
            r.1 == self@.links.len(),
    {
        (self.alive_count(), self.link_count())
    }

    /// Whether one more live link would be too many.
    pub fn is_crowded(&self) -> (r: bool)
        ensures
            r == (live(self@.links).len() >= MAX_TUNNEL_LINKS),
    {
        self.alive_count() >= MAX_TUNNEL_LINKS
    }

    /// Removes dead links.
    pub fn compact(&mut self)
        requires
            old(self).wf(),
        ensures
            final(self).wf(),
            final(self)@ == old(self)@.compacted(),
    {
        let ghost all = self@.links;
        let ghost held = self.links@;
        let before: usize = self.links.len();
        let mut kept: Vec<TunnelLink> = Vec::new();
        proof {
            assert(all.take(0) =~= Seq::empty());
            assert(link_views(kept@) =~= live(all.take(0)));
            assert(self.links@ =~= held.skip(0));
        }
        let mut i: usize = 0;
        while i < before
            invariant
                i <= before == held.len(),
                all == link_views(held),
                self.links@ == held.skip(i as int),
                self.rr == old(self).rr,
                self.next_id == old(self).next_id,
                link_views(kept@) == live(all.take(i as int)),
                forall|j: int|
                    0 <= j < held.len() ==> channel_limit((#[trigger] held[j]).tx)
                        <= TUNNEL_CHANNEL_CAP,
                forall|j: int|
                    0 <= j < kept@.len() ==> channel_limit((#[trigger] kept@[j]).tx)
                        <= TUNNEL_CHANNEL_CAP,
            decreases before - i,
        {
            let link = self.links.remove(0);
            proof {
                assert(link == held[i as int]);
                assert(self.links@ =~= held.skip(i + 1));
                assert(all.take(i + 1).drop_last() =~= all.take(i as int));
                assert(all.take(i + 1).last() == link@);
            }
            if link.alive {
                let ghost was = kept@;
                kept.push(link);
                assert(link_views(kept@) =~= link_views(was).push(link@));
            }
            i = i + 1;
        }
        assert(all.take(before as int) =~= all);
        if kept.len() != before {
            self.rr = 0;
        }
        self.links = kept;
    }

    /// Gives up the live links that have carried nothing for too long, and returns their
    /// ids.
    pub fn sweep_idle(&mut self, now: u64) -> (r: Vec<u64>)
        requires
            old(self).wf(),
        ensures
            final(self).wf(),
            final(self)@ == old(self)@.without_idle(now),
            r@ == idle_ids(old(self)@.links, now),
    {
        let ghost before = self@;
        let ghost all = before.links;
        let mut swept: Vec<u64> = Vec::new();
        let mut i: usize = 0;
        assert(all.take(0) =~= Seq::empty());
        while i < self.links.len()
            invariant
                i <= self.links@.len(),
                self.wf(),
                all == before.links,
                self@.links.len() == all.len(),
                self.links@.len() == all.len(),
                self@ == (PoolView { links: self@.links, ..before }),
                forall|j: int|
                    0 <= j < all.len() ==> #[trigger] self@.links[j] == (if j < i {
                        all[j].unless_idle(now)
                    } else {
                        all[j]
                    }),
                swept@ == idle_ids(all.take(i as int), now),
            decreases self.links.len() - i,
        {
            proof {
                assert(self@.links[i as int] == self.links@[i as int]@);
                assert(all.take(i + 1).drop_last() =~= all.take(i as int));
                assert(all.take(i + 1).last() == all[i as int]);
            }
            let ghost here = self@;
            if self.links[i].alive && elapsed(now, self.links[i].last_active) > LINK_IDLE_TIMEOUT {
                swept.push(self.links[i].id);
                self.mark_dead(i);
                assert(self@.links =~= here.links.update(i as int, here.links[i as int].dead()));
            }
            i = i + 1;
        }
        assert(all.take(i as int) =~= all);
        assert(self@.links =~= before.without_idle(now).links);
        swept
    }

    /// How many frames wait for live links. A dead link's channel does not count: with
    /// nobody to read it, it would seem full.
    pub fn queue_depth(&self) -> (r: usize)
        requires
            self.wf(),
        ensures
            exists|free: Seq<usize>|
                {
                    &&& free.len() == live(self@.links).len()
                    &&& forall|i: int| 0 <= i < free.len() ==> #[trigger] free[i] <= TUNNEL_CHANNEL_CAP
                    &&& r == #[trigger] depth(free)
                },
            r <= live(self@.links).len() * TUNNEL_CHANNEL_CAP,
    {
        let ghost all = self@.links;
        let mut free: Vec<usize> = Vec::new();
        let mut i: usize = 0;
        assert(all.take(0) =~= Seq::empty());
        while i < self.links.len()
            invariant
                i <= self.links@.len(),
                self.wf(),
                all == link_views(self.links@),
                free@.len() == live(all.take(i as int)).len(),
                forall|j: int| 0 <= j < free@.len() ==> #[trigger] free@[j] <= TUNNEL_CHANNEL_CAP,
            decreases self.links.len() - i,
        {
            proof {
                assert(all.take(i + 1).drop_last() =~= all.take(i as int));
                assert(all.take(i + 1).last() == self.links@[i as int]@);
            }
            if self.links[i].alive {
                free.push(free_slots(&self.links[i].tx));
            }
            i = i + 1;
        }
        assert(all.take(i as int) =~= all);
        proof {
            lemma_waiting_bound(free@);
        }
        backlog(&free)
    }

    /// The next live link of a round, at the place `from` or later, or that there is none.
    fn next_live(&self, start: usize, from: usize) -> (r: RoundStep)
        requires
            start < self@.links.len(),
            from <= self@.links.len(),
        ensures
            self@.goes_on(start as int, from as int, r),
    {
        let n: usize = self.links.len();
        let mut j: usize = from;
        while j < n
            invariant
                from <= j <= n,
                start < n,
                n == self.links@.len(),
                none_live(self@.links, start as int, from as int, j as int),
            decreases n - j,
        {
            let k: usize = link_at(start, j, n);
            assert(self@.links[around(start as int, j as int, n as int)] == self.links@[k as int]@);
            if self.links[k].alive {
                return RoundStep::Offer(j);
            }
            j = j + 1;
        }
        RoundStep::Done(false)
    }

    /// How a round over the links begins: with an offer to the first live one, if there
    /// is one.
    pub fn first_offer(&self, start: usize) -> (r: RoundStep)
        requires
            start < self@.links.len(),
        ensures
            self@.goes_on(start as int, 0, r),
    {
        self.next_live(start, 0)
    }

    /// How a round goes on after the link at its `i`-th place was offered the frame: a
    /// link that took it ends the round, and a refusal leads on to the next live link,
    /// until none is left. A link whose channel is closed is dead, one that is full is
    /// not.
    pub fn after_offer(&mut self, start: usize, i: usize, outcome: Offer) -> (r: RoundStep)
        requires
            old(self).wf(),
            start < old(self)@.links.len(),
            i < old(self)@.links.len(),
        ensures
            final(self).wf(),
            final(self)@ == (if outcome == Offer::Closed {
                old(self)@.with_dead(around(start as int, i as int, old(self)@.links.len() as int))
            } else {
                old(self)@
            }),
            outcome == Offer::Sent ==> r == RoundStep::Done(true),
            outcome != Offer::Sent ==> final(self)@.goes_on(start as int, i + 1, r),
    {
        let n: usize = self.links.len();
        let k: usize = link_at(start, i, n);
        self.settle(k, outcome);
        if outcome == Offer::Sent {
            return RoundStep::Done(true);
        }
        self.next_live(start, i + 1)
    }

    /// Puts a frame into the channel of the first live link, from the cursor on, that
    /// takes it. Returns false when none does. Which links take it is up to their
    /// readers; `first_offer` and `after_offer` say what is done about each outcome.
    pub fn send(&mut self, frame: Frame) -> (r: bool)
        requires
            old(self).wf(),
        ensures
            final(self).wf(),
            old(self)@.sends(frame@, final(self)@, r),
    {
        let n: usize = self.links.len();
        if n == 0 {
            return false;
        }
        let ghost before = self@;
        let start: usize = self.rr % n;
        self.rr = self.rr.wrapping_add(1);
        let ghost moved = self@;
        assert(moved =~= PoolView { rr: before.rr.wrapping_add(1), ..before });
        let ghost mut outcomes: Seq<Offer> = Seq::empty();
        let mut step = self.first_offer(start);
        proof {
            lemma_round_so_far(moved, moved, frame@, start as int, 0, outcomes, step);
        }
        loop
            invariant
                n == self@.links.len(),
                n == self.links@.len(),
                start < n,
                self.wf(),
                so_far(moved, self@, frame@, start as int, outcomes, step),
                before.links.len() == n,
                start == before.rr as int % n as int,
                before == old(self)@,
                moved == (PoolView { rr: before.rr.wrapping_add(1), ..before }),
            decreases steps_left(step, n as int),
        {
            let i: usize = match step {
                RoundStep::Done(sent) => {
                    return sent;
                },
                RoundStep::Offer(i) => i,
            };
            let k: usize = link_at(start, i, n);
            let ghost here = self@;
            let ghost was = outcomes;
            assert(here.links[k as int] == self.links@[k as int]@);
            let outcome = offer_frame(&mut self.links[k].tx, frame.clone());
            let ghost offered = self@;
            proof {
                lemma_around(start as int, i as int, n as int);
                assert(outcome != Offer::Sent ==> offered =~= here);
                assert(outcome == Offer::Sent ==> offered =~= here.with_queued(k as int, frame@));
                outcomes = was.push(outcome);
            }
            step = self.after_offer(start, i, outcome);
            proof {
                assert(self@ == here.offered(k as int, frame@, outcome));
                if outcome == Offer::Sent {
                    let rest = seq![outcome];
                    assert(here.round(frame@, start as int, i as int, rest, self@, true));
                    assert(was + rest =~= outcomes);
                } else {
                    assert forall|rest: Seq<Offer>, end: PoolView, sent: bool| #[trigger]
                        self@.round(
                            frame@,
                            start as int,
                            i + 1,
                            rest,
                            end,
                            sent,
                        ) implies moved.round(
                        frame@,
                        start as int,
                        0,
                        outcomes + rest,
                        end,
                        sent,
                    ) by {
                        let more = seq![outcome] + rest;
                        assert(more.skip(1) =~= rest);
                        assert(here.round(frame@, start as int, i as int, more, end, sent));
                        assert(was + more =~= outcomes + rest);
                    }
                    lemma_round_so_far(moved, self@, frame@, start as int, i + 1, outcomes, step);
                }
            }
        }
    }

    /// Takes in what came of offering a frame to a link: one whose channel is closed
    /// is dead.
    pub fn settle(&mut self, k: usize, outcome: Offer)
        requires
            old(self).wf(),
            k < old(self)@.links.len(),
        ensures
            final(self).wf(),
            final(self)@ == (if outcome == Offer::Closed {
                old(self)@.with_dead(k as int)
            } else {
                old(self)@
            }),
    {
        if outcome == Offer::Closed {
            self.links[k].alive = false;
            assert(self@.links =~= old(self)@.with_dead(k as int).links);
        }
    }

    /// The links that a frame may be offered to, in the order of the pool.
    pub fn candidates(&self, full: &Vec<u64>) -> (r: Vec<usize>)
        ensures
            forall|i: int, j: int| 0 <= i < j < r@.len() ==> r@[i] < r@[j],
            forall|k: usize| #[trigger] r@.contains(k) <==> self@.is_candidate(full@, k as int),
    {
        let mut r: Vec<usize> = Vec::new();
        let mut k: usize = 0;
        while k < self.links.len()
            invariant
                k <= self.links@.len(),
                forall|i: int, j: int| 0 <= i < j < r@.len() ==> r@[i] < r@[j],
                forall|i: int| 0 <= i < r@.len() ==> #[trigger] r@[i] < k,
                forall|j: usize| #[trigger]
                    r@.contains(j) <==> j < k && self@.is_candidate(full@, j as int),
            decreases self.links.len() - k,
        {
            let link = &self.links[k];
            assert(self@.links[k as int] == link@);
            let ghost was = r@;
            if link.alive && !holds_id(full, link.id) {
                r.push(k);
            }
            proof {
                assert forall|j: usize| #[trigger] r@.contains(j) <==> j < k + 1
                    && self@.is_candidate(full@, j as int) by {
                    if was.contains(j) {
                        let x = was.index_of(j);
                        assert(r@[x] == j);
                    }
                    if r@.len() > was.len() {
                        assert(r@[was.len() as int] == k);
                        if r@.contains(j) && j != k {
                            let x = r@.index_of(j);
                            assert(was[x] == j);
                        }
                    }
                }
            }
            k = k + 1;
        }
        r
    }

    /// The place of the cursor on the grid of the weighted choice; the cursor moves on.
    pub fn next_anchor(&mut self) -> (r: usize)
        requires
            old(self).wf(),
        ensures
            final(self).wf(),
            r == old(self)@.rr as int % WEIGHT_GRID as int,
            final(self)@ == (PoolView { rr: old(self)@.rr.wrapping_add(1), ..old(self)@ }),
    {
        let r: usize = self.rr % WEIGHT_GRID;
        self.rr = self.rr.wrapping_add(1);
        r
    }

    /// The live link that drains fastest.
    pub fn best_live(&self) -> (r: Option<usize>)
        ensures
            r is Some ==> self@.is_best(r->Some_0 as int),
            r is None ==> forall|k: int|
                0 <= k < self@.links.len() ==> !(#[trigger] self@.links[k]).alive,
    {
        let mut best: Option<usize> = None;
        let mut k: usize = 0;
        while k < self.links.len()
            invariant
                k <= self.links@.len(),
                best is None ==> forall|j: int|
                    0 <= j < k ==> !(#[trigger] self@.links[j]).alive,
                best is Some ==> {
                    let b = best->Some_0 as int;
                    &&& b < k
                    &&& self@.links[b].alive
                    &&& forall|j: int|
                        0 <= j < k && (#[trigger] self@.links[j]).alive ==> self@.links[j].rate_bps
                            < self@.links[b].rate_bps || (self@.links[j].rate_bps
                            == self@.links[b].rate_bps && j <= b)
                },
            decreases self.links.len() - k,
        {
            assert(self@.links[k as int] == self.links@[k as int]@);
            if self.links[k].alive {
                let better: bool = match best {
                    None => true,
                    Some(b) => {
                        assert(self@.links[b as int] == self.links@[b as int]@);
                        self.links[k].rate_bps >= self.links[b].rate_bps
                    },
                };
                if better {
                    best = Some(k);
                }
            }
            k = k + 1;
        }
        best
    }

    /// What to do with a frame that waits for a tunnel, after these links were found
    /// full.
    pub fn plan_send(&self, full: &Vec<u64>) -> (r: SendStep)
        ensures
            match r {
                SendStep::Choose(ks) => {
                    &&& ks@.len() > 0
                    &&& forall|i: int, j: int| 0 <= i < j < ks@.len() ==> ks@[i] < ks@[j]
                    &&& forall|k: usize| #[trigger]
                        ks@.contains(k) <==> self@.is_candidate(full@, k as int)
                },
                SendStep::WaitFor(k) => {
                    &&& forall|j: int| !#[trigger] self@.is_candidate(full@, j)
                    &&& self@.is_best(k as int)
                },
                SendStep::WaitForLink => forall|k: int|
                    0 <= k < self@.links.len() ==> !(#[trigger] self@.links[k]).alive,
            },
    {
        let n: usize = self.links.len();
        let ks = self.candidates(full);
        if ks.len() > 0 {
            return SendStep::Choose(ks);
        }
        proof {
            assert forall|j: int| !#[trigger] self@.is_candidate(full@, j) by {
                if self@.is_candidate(full@, j) {
                    assert(j < n);
                    assert(ks@.contains(j as usize));
                }
            }
        }
        match self.best_live() {
            Some(k) => SendStep::WaitFor(k),
            None => SendStep::WaitForLink,
        }
    }

    /// Offers a frame to a link. One that is full is remembered, one whose channel is
    /// closed is dead.
    pub fn offer(&mut self, k: usize, frame: Frame, full: &mut Vec<u64>) -> (r: Offer)
        requires
            old(self).wf(),
            k < old(self)@.links.len(),
        ensures
            final(self).wf(),
            final(self)@ == old(self)@.offered(k as int, frame@, r),
            final(full)@ == (if r == Offer::Full {
                old(full)@.push(old(self)@.links[k as int].id)
            } else {
                old(full)@
            }),
    {
        assert(self@.links[k as int] == self.links@[k as int]@);
        let ghost was = self@;
        let outcome = offer_frame(&mut self.links[k].tx, frame);
        assert(outcome == Offer::Sent ==> self@ =~= was.with_queued(k as int, frame@));
        assert(outcome != Offer::Sent ==> self@ =~= was);
        if outcome == Offer::Full {
            full.push(self.links[k].id);
        }
        self.settle(k, outcome);
        outcome
    }

    /// A link, with its channel.
    pub fn link(&self, k: usize) -> (r: &TunnelLink)
        requires
            k < self@.links.len(),
        ensures
            r@ == self@.links[k as int],
    {
        &self.links[k]
    }

    /// Where the link with an id stands.
    pub fn find(&self, id: u64) -> (r: Option<usize>)
        ensures
            r is Some ==> r->Some_0 < self@.links.len() && self@.links[r->Some_0 as int].id == id
                && forall|j: int|
                0 <= j < r->Some_0 ==> (#[trigger] self@.links[j]).id != id,
            r is None ==> forall|j: int|
                0 <= j < self@.links.len() ==> (#[trigger] self@.links[j]).id != id,
    {
        let mut k: usize = 0;
        while k < self.links.len()
            invariant
                k <= self.links@.len(),
                forall|j: int| 0 <= j < k ==> (#[trigger] self@.links[j]).id != id,
            decreases self.links.len() - k,
        {
            assert(self@.links[k as int] == self.links@[k as int]@);
            if self.links[k].id == id {
                return Some(k);
            }
            k = k + 1;
        }
        None
    }

    /// Marks a link as dead.
    pub fn mark_dead(&mut self, k: usize)
        requires
            old(self).wf(),
            k < old(self)@.links.len(),
        ensures
            final(self).wf(),
            final(self)@ == old(self)@.with_dead(k as int),
    {
        self.settle(k, Offer::Closed);
    }

    /// Takes in what came of waiting for a link that was full, and says which links to
    /// take for full from now on, unless the frame is taken. A link whose channel is
    /// closed is dead, and leaves the list; after a wait in vain every link is tried
    /// again.
    pub fn after_wait(&mut self, id: u64, waited: Waited, full: &Vec<u64>) -> (r: Option<Vec<u64>>)
        requires
            old(self).wf(),
        ensures
            final(self).wf(),
            final(self)@ == (if waited == Waited::Closed {
                old(self)@.without(id)
            } else {
                old(self)@
            }),
            match waited {
                Waited::Taken => r is None,
                Waited::Closed => r is Some && r->Some_0@ == full@.filter(|x: u64| x != id),
                Waited::TimedOut => r is Some && r->Some_0@.len() == 0,
            },
    {
        match waited {
            Waited::Taken => None,
            Waited::Closed => {
                proof {
                    lemma_place(self@.links, id);
                }
                match self.find(id) {
                    Some(k) => {
                        self.mark_dead(k);
                    },
                    None => {},
                }
                Some(without_id(full, id))
            },
            Waited::TimedOut => Some(Vec::new()),
        }
    }

    /// Counts a frame with `len` payload bytes that was written into a tunnel.
    pub fn count_sent(&mut self, k: usize, len: u64, now: u64)
        requires
            old(self).wf(),
            k < old(self)@.links.len(),
        ensures
            final(self).wf(),
            final(self)@ == (PoolView {
                links: old(self)@.links.update(
                    k as int,
                    LinkView {
                        bytes_sent: old(self)@.links[k as int].bytes_sent.wrapping_add(len),
                        frames_sent: old(self)@.links[k as int].frames_sent.wrapping_add(1),
                        last_active: now,
                        ..old(self)@.links[k as int]
                    },
                ),
                ..old(self)@
            }),
    {
        let bytes: u64 = self.links[k].bytes_sent.wrapping_add(len);
        let frames: u64 = self.links[k].frames_sent.wrapping_add(1);
        self.links[k].bytes_sent = bytes;
        self.links[k].frames_sent = frames;
        self.links[k].last_active = now;
        proof {
            let was = old(self)@.links[k as int];
            assert(self@.links =~= old(self)@.links.update(
                k as int,
                LinkView { bytes_sent: bytes, frames_sent: frames, last_active: now, ..was },
            ));
        }
    }

    /// Counts a frame with `len` payload bytes that came out of a tunnel.
    pub fn count_received(&mut self, k: usize, len: u64, now: u64)
        requires
            old(self).wf(),
            k < old(self)@.links.len(),
        ensures
            final(self).wf(),
            final(self)@ == (PoolView {
                links: old(self)@.links.update(
                    k as int,
                    LinkView {
                        bytes_recv: old(self)@.links[k as int].bytes_recv.wrapping_add(len),
                        frames_recv: old(self)@.links[k as int].frames_recv.wrapping_add(1),
                        last_active: now,
                        ..old(self)@.links[k as int]
                    },
                ),
                ..old(self)@
            }),
    {
        let bytes: u64 = self.links[k].bytes_recv.wrapping_add(len);
        let frames: u64 = self.links[k].frames_recv.wrapping_add(1);
        self.links[k].bytes_recv = bytes;
        self.links[k].frames_recv = frames;
        self.links[k].last_active = now;
        proof {
            let was = old(self)@.links[k as int];
            assert(self@.links =~= old(self)@.links.update(
                k as int,
                LinkView { bytes_recv: bytes, frames_recv: frames, last_active: now, ..was },
            ));
        }
    }

    /// Sets the rate at which a tunnel was seen to drain.
    pub fn set_rate(&mut self, k: usize, rate_bps: u64)
        requires
            old(self).wf(),
            k < old(self)@.links.len(),
        ensures
            final(self).wf(),
            final(self)@ == (PoolView {
                links: old(self)@.links.update(
                    k as int,
                    LinkView { rate_bps, ..old(self)@.links[k as int] },
                ),
                ..old(self)@
            }),
    {
        self.links[k].rate_bps = rate_bps;
        proof {
            let was = old(self)@.links[k as int];
            assert(self@.links =~= old(self)@.links.update(
                k as int,
                LinkView { rate_bps, ..was },
            ));
        }
    }
}

impl Default for TunnelPool {
    fn default() -> (r: Self)
        ensures
            r.wf(),
            r@ == (PoolView { links: Seq::empty(), rr: 0, next_id: 1 }),
    {
        Self::new()
    }
}

fn holds_id(ids: &Vec<u64>, id: u64) -> (r: bool)
    ensures
        r == ids@.contains(id),
{
    let mut i: usize = 0;
    while i < ids.len()
        invariant
            i <= ids@.len(),
            forall|j: int| 0 <= j < i ==> #[trigger] ids@[j] != id,
        decreases ids.len() - i,
    {
        if ids[i] == id {
            return true;
        }
        i = i + 1;
    }
    false
}

/// A list of ids without one of them.
pub fn without_id(ids: &Vec<u64>, id: u64) -> (r: Vec<u64>)
    ensures
        r@ == ids@.filter(|x: u64| x != id),
{
    let ghost keep = |x: u64| x != id;
    let mut r: Vec<u64> = Vec::new();
    let mut i: usize = 0;
    proof {
        reveal(Seq::filter);
        assert(ids@.take(0).filter(keep) =~= Seq::empty());
    }
    while i < ids.len()
        invariant
            i <= ids@.len(),
            keep == (|x: u64| x != id),
            r@ == ids@.take(i as int).filter(keep),
        decreases ids.len() - i,
    {
        proof {
            reveal(Seq::filter);
            assert(ids@.take(i + 1).drop_last() =~= ids@.take(i as int));
        }
        if ids[i] != id {
            r.push(ids[i]);
        }
        i = i + 1;
    }
    assert(ids@.take(i as int) =~= ids@);
    r
}

/// Where the `i`-th step round `n` links from `start` on leads.
proof fn lemma_around(start: int, i: int, n: int)
    requires
        0 <= start < n,
        0 <= i < n,
    ensures
        (start + i) % n == (if i < n - start {
            start + i
        } else {
            i - (n - start)
        }),
{
    if i < n - start {
        assert((start + i) % n == start + i) by (nonlinear_arith)
            requires
                0 <= start + i < n,
        ;
    } else {
        assert((start + i) % n == start + i - n) by (nonlinear_arith)
            requires
                n <= start + i < 2 * n,
        ;
    }
}

/// How many frames wait, going by how many more each channel could take.
pub open spec fn waiting_frames(free: Seq<usize>) -> nat
    decreases free.len(),
{
    if free.len() == 0 {
        0
    } else {
        waiting_frames(free.drop_last()) + (TUNNEL_CHANNEL_CAP - free.last()) as nat
    }
}

/// How many frames wait, or the largest number if they are more.
pub open spec fn depth(free: Seq<usize>) -> nat {
    if waiting_frames(free) > usize::MAX {
        usize::MAX as nat
    } else {
        waiting_frames(free)
    }
}

proof fn lemma_waiting_bound(free: Seq<usize>)
    requires
        forall|i: int| 0 <= i < free.len() ==> #[trigger] free[i] <= TUNNEL_CHANNEL_CAP,
    ensures
        waiting_frames(free) <= free.len() * TUNNEL_CHANNEL_CAP,
    decreases free.len(),
{
    if free.len() > 0 {
        let less = free.drop_last();
        assert forall|i: int| 0 <= i < less.len() implies #[trigger] less[i]
            <= TUNNEL_CHANNEL_CAP by {
            assert(less[i] == free[i]);
        }
        lemma_waiting_bound(less);
    }
}

/// Counts the frames that wait, going by how many more each channel could take. The
/// count stops at the largest number.
pub fn backlog(free: &Vec<usize>) -> (r: usize)
    requires
        forall|i: int| 0 <= i < free@.len() ==> #[trigger] free@[i] <= TUNNEL_CHANNEL_CAP,
    ensures
        r == depth(free@),
{
    let mut n: usize = 0;
    let mut i: usize = 0;
    assert(free@.take(0) =~= Seq::empty());
    while i < free.len()
        invariant
            i <= free@.len(),
            forall|j: int| 0 <= j < free@.len() ==> #[trigger] free@[j] <= TUNNEL_CHANNEL_CAP,
            n == depth(free@.take(i as int)),
        decreases free.len() - i,
    {
        assert(free@.take(i + 1).drop_last() =~= free@.take(i as int));
        n = n.saturating_add(TUNNEL_CHANNEL_CAP - free[i]);
        i = i + 1;
    }
    assert(free@.take(i as int) =~= free@);
    n
}

// ── Draining ──────────────────────────────────────────────────────────

/// The work of a tunnel's writer: frames go from its channel into the tunnel, until the
/// tunnel is given up.
pub struct Drain {
    /// The tunnel is given up.
    dead: bool,
    /// The frame that is being written.
    in_flight: Option<Frame>,
    /// Frames that were taken from the channel and not written.
    lost: Vec<Frame>,
}

/// A [`Drain`] as mathematical values.
#[verifier::ext_equal]
pub struct DrainView {
    pub dead: bool,
    pub in_flight: Option<FrameView>,
    pub lost: Seq<FrameView>,
}

/// The view of a frame that may not be there.
pub open spec fn maybe_view(f: Option<Frame>) -> Option<FrameView> {
    match f {
        Some(f) => Some(f@),
        None => None,
    }
}

impl View for Drain {
    type V = DrainView;

    closed spec fn view(&self) -> DrainView {
        DrainView {
            dead: self.dead,
            in_flight: maybe_view(self.in_flight),
            lost: frame_views(self.lost@),
        }
    }
}

impl DrainView {
    /// The tunnel is to be given up. A frame that is being written is lost.
    pub open spec fn stopped(self) -> DrainView {
        DrainView {
            dead: true,
            in_flight: None,
            lost: match self.in_flight {
                Some(f) => self.lost.push(f),
                None => self.lost,
            },
        }
    }

    /// A frame came from the channel, or the channel is closed. One without a wire
    /// form is lost and ends the work: the connection it belongs to is broken.
    pub open spec fn dequeued(self, frame: Option<FrameView>) -> DrainView {
        match frame {
            None => DrainView { dead: true, ..self },
            Some(f) => if f.fits() {
                DrainView { in_flight: Some(f), ..self }
            } else {
                DrainView { dead: true, lost: self.lost.push(f), ..self }
            },
        }
    }

    /// The frame in flight was written, or could not be, which ends the work: it is
    /// then lost.
    pub open spec fn written(self, ok: bool) -> DrainView {
        if ok {
            DrainView { in_flight: None, ..self }
        } else {
            self.stopped()
        }
    }
}

impl Drain {
    /// Work that has not begun.
    pub fn new() -> (r: Self)
        ensures
            r@ == (DrainView { dead: false, in_flight: None, lost: Seq::empty() }),
    {
        let r = Drain { dead: false, in_flight: None, lost: Vec::new() };
        assert(r@.lost =~= Seq::empty());
        r
    }

    /// Whether the tunnel is given up.
    pub fn is_dead(&self) -> (r: bool)
        ensures
            r == self@.dead,
    {
        self.dead
    }

    /// Reports that the tunnel is to be given up.
    pub fn stop(&mut self)
        ensures
            final(self)@ == old(self)@.stopped(),
    {
        let mut f: Option<Frame> = None;
        std::mem::swap(&mut f, &mut self.in_flight);
        let ghost was = self.lost@;
        match f {
            Some(frame) => {
                self.lost.push(frame);
                assert(frame_views(self.lost@) =~= frame_views(was).push(frame@));
            },
            None => {},
        }
        self.dead = true;
    }

    /// Reports what came from the channel. Returns whether to write the buffer, which
    /// then holds the frame's wire form, and else nothing.
    pub fn dequeue(&mut self, frame: Option<Frame>, buf: &mut BytesMut) -> (r: bool)
        ensures
            final(self)@ == old(self)@.dequeued(maybe_view(frame)),
            r == (frame is Some && frame->Some_0@.fits()),
            r ==> bytes_mut_content(*final(buf)) == frame->Some_0@.wire(),
            !r ==> bytes_mut_content(*final(buf)).len() == 0,
    {
        buffer_clear(buf);
        match frame {
            None => {
                self.dead = true;
                false
            },
            Some(frame) => {
                match frame.encode_into(buf) {
                    Ok(_) => {
                        assert(bytes_mut_content(*buf) =~= frame@.wire());
                        self.in_flight = Some(frame);
                        true
                    },
                    Err(_) => {
                        let ghost was = self.lost@;
                        self.lost.push(frame);
                        assert(frame_views(self.lost@) =~= frame_views(was).push(frame@));
                        self.dead = true;
                        false
                    },
                }
            },
        }
    }

    /// Reports that the frame in flight was written (`ok`) or could not be. Returns
    /// how many payload bytes went out.
    pub fn written(&mut self, ok: bool) -> (r: Option<u64>)
        ensures
            final(self)@ == old(self)@.written(ok),
            r == (if ok && old(self)@.in_flight is Some {
                Some(old(self)@.in_flight->Some_0.payload.len() as u64)
            } else {
                None
            }),
    {
        if !ok {
            self.stop();
            return None;
        }
        let mut f: Option<Frame> = None;
        std::mem::swap(&mut f, &mut self.in_flight);
        match f {
            Some(frame) => Some(frame.payload.len() as u64),
            None => None,
        }
    }

    /// Reports a frame that was still in the channel when the tunnel was given up.
    pub fn leave(&mut self, frame: Frame)
        ensures
            final(self)@ == (DrainView { lost: old(self)@.lost.push(frame@), ..old(self)@ }),
    {
        let ghost was = self.lost@;
        self.lost.push(frame);
        assert(frame_views(self.lost@) =~= frame_views(was).push(frame@));
    }

    /// The frames that were lost, the first one first.
    pub fn into_lost(self) -> (r: Vec<Frame>)
        ensures
            frame_views(r@) == self@.lost,
    {
        self.lost
    }
}

/// A frame that a writer takes from its channel is written or counted as lost, once:
/// it is lost when it has no wire form, when its write fails and when the tunnel is given
/// up meanwhile, and in no other way does the list of lost frames change.
pub proof fn law_frames_are_written_or_lost(d: DrainView, f: FrameView)
    requires
        d.in_flight is None,
    ensures
        ({
            let next = d.dequeued(Some(f));
            &&& f.fits() ==> next.in_flight == Some(f) && next.lost == d.lost
            &&& f.fits() ==> next.written(true) == d
            &&& f.fits() ==> next.written(false).lost == d.lost.push(f)
            &&& f.fits() ==> next.stopped().lost == d.lost.push(f)
            &&& !f.fits() ==> next.in_flight is None && next.lost == d.lost.push(f)
        }),
        d.dequeued(None).lost == d.lost,
        d.stopped().lost == d.lost,
        d.written(true).lost == d.lost,
        d.written(false).lost == d.lost,
{
}

/// A round that ends without its frame being taken has as many outcomes as there were
/// live links ahead of it, none of them that the frame was taken. Which link each outcome
/// belongs to is what `round` says.
pub proof fn law_refused_by_all(
    p: PoolView,
    f: FrameView,
    start: int,
    i: int,
    outcomes: Seq<Offer>,
    end: PoolView,
)
    requires
        0 <= i <= p.links.len(),
        0 <= start < p.links.len(),
        p.round(f, start, i, outcomes, end, false),
    ensures
        forall|j: int| 0 <= j < outcomes.len() ==> #[trigger] outcomes[j] != Offer::Sent,
        end.links.len() == p.links.len(),
        outcomes.len() == live_from(p.links, start, i),
    decreases p.links.len() - i,
{
    let n = p.links.len() as int;
    if i < n {
        let k = (start + i) % n;
        lemma_around(start, i, n);
        if !p.links[k].alive {
            law_refused_by_all(p, f, start, i + 1, outcomes, end);
        } else {
            let rest = outcomes.skip(1);
            if outcomes[0] == Offer::Full {
                law_refused_by_all(p, f, start, i + 1, rest, end);
            } else {
                let q = p.with_dead(k);
                law_refused_by_all(q, f, start, i + 1, rest, end);
                lemma_live_from_update(p.links, start, i + 1, k);
            }
            assert forall|j: int| 0 <= j < outcomes.len() implies #[trigger] outcomes[j]
                != Offer::Sent by {
                if j > 0 {
                    assert(rest[j - 1] == outcomes[j]);
                }
            }
        }
    }
}

/// A round leaves its frame with one live link when it was taken, behind what that link
/// held, and with none when it was not. Whatever else the links held stays with them.
pub proof fn law_taken_once(
    p: PoolView,
    f: FrameView,
    start: int,
    i: int,
    outcomes: Seq<Offer>,
    end: PoolView,
    sent: bool,
) -> (k: int)
    requires
        0 <= i <= p.links.len(),
        0 <= start < p.links.len(),
        p.round(f, start, i, outcomes, end, sent),
    ensures
        end.links.len() == p.links.len(),
        sent ==> 0 <= k < p.links.len() && p.links[k].alive && end.links[k].alive
            && end.links[k].queued == p.links[k].queued.push(f),
        forall|j: int|
            0 <= j < p.links.len() && !(sent && j == k) ==> (#[trigger] end.links[j]).queued
                == p.links[j].queued,
    decreases p.links.len() - i,
{
    let n = p.links.len() as int;
    if i < n {
        let k = (start + i) % n;
        lemma_around(start, i, n);
        if !p.links[k].alive {
            law_taken_once(p, f, start, i + 1, outcomes, end, sent)
        } else {
            let rest = outcomes.skip(1);
            match outcomes[0] {
                Offer::Sent => k,
                Offer::Full => law_taken_once(p, f, start, i + 1, rest, end, sent),
                Offer::Closed => {
                    let q = p.with_dead(k);
                    let at = law_taken_once(q, f, start, i + 1, rest, end, sent);
                    assert forall|j: int| 0 <= j < n implies (#[trigger] q.links[j]).queued
                        == p.links[j].queued && (q.links[j].alive ==> p.links[j].alive) by {}
                    at
                },
            }
        }
    } else {
        0
    }
}

/// The link that takes a frame is the first in the round that does not refuse it: every
/// live link that comes before it from the place `i` on was offered the frame, and refused.
pub proof fn law_the_first_that_takes_it(
    p: PoolView,
    f: FrameView,
    start: int,
    i: int,
    outcomes: Seq<Offer>,
    end: PoolView,
) -> (at: int)
    requires
        0 <= i <= p.links.len(),
        0 <= start < p.links.len(),
        p.round(f, start, i, outcomes, end, true),
    ensures
        i <= at < p.links.len(),
        p.links[(start + at) % p.links.len() as int].alive,
        end.links[(start + at) % p.links.len() as int].queued == p.links[(start + at)
            % p.links.len() as int].queued.push(f),
        outcomes.len() == live_from(p.links, start, i) - live_from(p.links, start, at + 1),
        outcomes.len() >= 1,
        outcomes.last() == Offer::Sent,
        forall|j: int| 0 <= j < outcomes.len() - 1 ==> #[trigger] outcomes[j] != Offer::Sent,
    decreases p.links.len() - i,
{
    let n = p.links.len() as int;
    let k = (start + i) % n;
    lemma_around(start, i, n);
    if !p.links[k].alive {
        law_the_first_that_takes_it(p, f, start, i + 1, outcomes, end)
    } else if outcomes[0] == Offer::Sent {
        assert(live_from(p.links, start, i) == live_from(p.links, start, i + 1) + 1);
        i
    } else {
        let rest = outcomes.skip(1);
        let q = if outcomes[0] == Offer::Full {
            p
        } else {
            p.with_dead(k)
        };
        let at = law_the_first_that_takes_it(q, f, start, i + 1, rest, end);
        lemma_around(start, at, n);
        assert((start + at) % n != k);
        assert(0 <= i < i + 1 && (start + i) % n == k);
        assert(0 <= i < at + 1 && (start + i) % n == k);
        lemma_live_from_update(p.links, start, i + 1, k);
        lemma_live_from_update(p.links, start, at + 1, k);
        assert forall|j: int| 0 <= j < outcomes.len() - 1 implies #[trigger] outcomes[j]
            != Offer::Sent by {
            if j > 0 {
                assert(rest[j - 1] == outcomes[j]);
            }
        }
        assert(rest.last() == outcomes.last());
        at
    }
}

/// How many of the links that a round has not passed yet are alive.
pub open spec fn live_from(links: Seq<LinkView>, start: int, i: int) -> nat
    decreases links.len() - i,
{
    if i < 0 || i >= links.len() {
        0
    } else {
        live_from(links, start, i + 1) + if links[(start + i) % links.len() as int].alive {
            1nat
        } else {
            0
        }
    }
}

/// A link that a round has passed does not count any more.
proof fn lemma_live_from_update(links: Seq<LinkView>, start: int, i: int, k: int)
    requires
        0 <= start < links.len(),
        0 < i <= links.len(),
        0 <= k < links.len(),
        exists|p: int| 0 <= p < i && #[trigger] ((start + p) % links.len() as int) == k,
    ensures
        live_from(links.update(k, links[k].dead()), start, i) == live_from(links, start, i),
    decreases links.len() - i,
{
    let n = links.len() as int;
    let p = choose|p: int| 0 <= p < i && #[trigger] ((start + p) % n) == k;
    if i < n {
        lemma_around(start, i, n);
        lemma_around(start, p, n);
        assert((start + i) % n != k);
        assert(0 <= p < i + 1 && (start + p) % n == k);
        lemma_live_from_update(links, start, i + 1, k);
    }
}

/// A tunnel that carried a frame, in whichever direction, within the time limit is not
/// given up for being idle; and one that is given up is not idle any more.
pub proof fn law_busy_links_are_kept(p: PoolView, k: int, now: u64)
    requires
        0 <= k < p.links.len(),
    ensures
        span(now, p.links[k].last_active) <= LINK_IDLE_TIMEOUT ==> p.without_idle(now).links[k]
            == p.links[k],
        !p.without_idle(now).links[k].is_idle(now),
        p.without_idle(now).links[k].queued == p.links[k].queued,
{
}

/// Links that the pool keeps are the live ones, in their order, and compacting again
/// changes nothing.
pub proof fn law_compact_keeps_the_live(p: PoolView)
    ensures
        forall|i: int|
            0 <= i < p.compacted().links.len() ==> (#[trigger] p.compacted().links[i]).alive,
        p.compacted().compacted() == p.compacted(),
{
    lemma_live_alive(p.links);
    lemma_live_all(live(p.links));
}

proof fn lemma_live_alive(links: Seq<LinkView>)
    ensures
        forall|i: int| 0 <= i < live(links).len() ==> (#[trigger] live(links)[i]).alive,
        live(links).len() <= links.len(),
    decreases links.len(),
{
    if links.len() > 0 {
        lemma_live_alive(links.drop_last());
    }
}

proof fn lemma_live_all(links: Seq<LinkView>)
    requires
        forall|i: int| 0 <= i < links.len() ==> (#[trigger] links[i]).alive,
    ensures
        live(links) == links,
    decreases links.len(),
{
    if links.len() > 0 {
        let less = links.drop_last();
        assert forall|i: int| 0 <= i < less.len() implies (#[trigger] less[i]).alive by {
            assert(less[i] == links[i]);
        }
        lemma_live_all(less);
        assert(links[links.len() - 1].alive);
        assert(less.push(links.last()) =~= links);
    } else {
        assert(links =~= Seq::empty());
    }
}

} // verus!
