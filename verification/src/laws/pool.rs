//! The tunnels: which of them stay, which take a frame, and what is lost with one.

use crate::frame::FrameView;
use crate::tunnel::{
    all_taken, around, depth, idle_ids, live, none_live, place, taken, waiting_frames, DrainView, LinkView,
    Offer, PoolView, RoundStep, FULL_RETRY, LINK_IDLE_TIMEOUT, MAX_TUNNEL_LINKS,
    TUNNEL_CHANNEL_CAP, WEIGHT_GRID,
};
use vstd::prelude::*;

verus! {

/// The limits of the pool, in plain numbers; times are in nanoseconds.
pub proof fn law_pool_limits()
    ensures
        TUNNEL_CHANNEL_CAP == 128,
        WEIGHT_GRID == 1024,
        MAX_TUNNEL_LINKS == 64,
        LINK_IDLE_TIMEOUT == 600_000_000_000,
        FULL_RETRY == 10_000_000,
{
}

/// A link that was just made is alive and has carried nothing.
pub proof fn law_new_link(id: u64, queued: Seq<FrameView>)
    ensures
        ({
            let l = LinkView::new(id, queued);
            &&& l.alive && l.id == id && l.queued == queued && l.rate_bps == 0
            &&& l.bytes_sent == 0 && l.bytes_recv == 0 && l.frames_sent == 0 && l.frames_recv == 0
            &&& l.last_active == 0
        }),
{
}

/// Compacting keeps exactly the live links, in their order: every live link survives, no
/// dead one does. The cursor starts anew when a link left, and stays otherwise.
pub proof fn law_every_live_link_survives(p: PoolView)
    ensures
        p.compacted().links == p.links.filter(|l: LinkView| l.alive),
        forall|i: int|
            0 <= i < p.links.len() && (#[trigger] p.links[i]).alive
                ==> p.compacted().links.contains(p.links[i]),
        forall|i: int|
            0 <= i < p.compacted().links.len() ==> (#[trigger] p.compacted().links[i]).alive
                && p.links.contains(p.compacted().links[i]),
        p.compacted().next_id == p.next_id,
        (exists|i: int| 0 <= i < p.links.len() && !(#[trigger] p.links[i]).alive)
            ==> p.compacted().rr == 0,
        (forall|i: int| 0 <= i < p.links.len() ==> (#[trigger] p.links[i]).alive)
            ==> p.compacted() == p,
{
    let alive = |l: LinkView| l.alive;
    lemma_live_filters(p.links);
    broadcast use vstd::seq_lib::group_filter_ensures;

    assert forall|i: int|
        0 <= i < p.links.len() && (#[trigger] p.links[i]).alive implies p.compacted().links.contains(
        p.links[i],
    ) by {
        assert(alive(p.links[i]));
        assert(p.links.filter(alive).contains(p.links[i]));
    }
    assert forall|i: int| 0 <= i < p.compacted().links.len() implies (
    #[trigger] p.compacted().links[i]).alive && p.links.contains(p.compacted().links[i]) by {
        assert(alive(p.links.filter(alive)[i]));
        lemma_filter_is_from(p.links, alive, i);
    }
    if exists|i: int| 0 <= i < p.links.len() && !(#[trigger] p.links[i]).alive {
        let i = choose|i: int| 0 <= i < p.links.len() && !(#[trigger] p.links[i]).alive;
        lemma_live_shorter(p.links, i);
    }
    if forall|i: int| 0 <= i < p.links.len() ==> (#[trigger] p.links[i]).alive {
        lemma_live_whole(p.links);
    }
}

/// The count of live links: a list with one more link has one more live link if that one
/// is alive, and else as many.
pub proof fn law_live_links_are_counted(links: Seq<LinkView>, l: LinkView)
    ensures
        live(Seq::<LinkView>::empty()).len() == 0,
        live(links.push(l)) == (if l.alive {
            live(links).push(l)
        } else {
            live(links)
        }),
        live(links) == links.filter(|l: LinkView| l.alive),
        live(links).len() <= links.len(),
{
    assert(links.push(l).drop_last() =~= links);
    lemma_live_filters(links);
    lemma_live_shorter_or_same(links);
}

proof fn lemma_live_filters(links: Seq<LinkView>)
    ensures
        live(links) == links.filter(|l: LinkView| l.alive),
    decreases links.len(),
{
    reveal(Seq::filter);
    if links.len() > 0 {
        lemma_live_filters(links.drop_last());
    }
}

proof fn lemma_filter_is_from(s: Seq<LinkView>, keep: spec_fn(LinkView) -> bool, i: int)
    requires
        0 <= i < s.filter(keep).len(),
    ensures
        s.contains(s.filter(keep)[i]),
    decreases s.len(),
{
    reveal(Seq::filter);
    if s.len() > 0 {
        let less = s.drop_last();
        let x = s.filter(keep)[i];
        if i < less.filter(keep).len() {
            lemma_filter_is_from(less, keep, i);
            let j = less.index_of(x);
            assert(s[j] == x);
        } else {
            assert(s[s.len() - 1] == x);
        }
    }
}

proof fn lemma_live_shorter_or_same(links: Seq<LinkView>)
    ensures
        live(links).len() <= links.len(),
    decreases links.len(),
{
    if links.len() > 0 {
        lemma_live_shorter_or_same(links.drop_last());
    }
}

proof fn lemma_live_shorter(links: Seq<LinkView>, i: int)
    requires
        0 <= i < links.len(),
        !links[i].alive,
    ensures
        live(links).len() < links.len(),
    decreases links.len(),
{
    let less = links.drop_last();
    if i < less.len() {
        assert(!less[i].alive);
        lemma_live_shorter(less, i);
    } else {
        lemma_live_shorter_or_same(less);
    }
}

proof fn lemma_live_whole(links: Seq<LinkView>)
    requires
        forall|i: int| 0 <= i < links.len() ==> (#[trigger] links[i]).alive,
    ensures
        live(links) == links,
    decreases links.len(),
{
    if links.len() > 0 {
        let less = links.drop_last();
        assert forall|i: int| 0 <= i < less.len() implies (#[trigger] less[i]).alive by {
            assert(less[i] == links[i]);
        }
        lemma_live_whole(less);
        assert(links[links.len() - 1].alive);
        assert(less.push(links.last()) =~= links);
    } else {
        assert(links =~= Seq::empty());
    }
}

/// A live link that has carried nothing for more than 600 seconds is given up, and no
/// other. Giving a link up leaves everything about it but that it is dead.
pub proof fn law_silent_links_are_given_up(p: PoolView, k: int, now: u64)
    requires
        0 <= k < p.links.len(),
    ensures
        ({
            let q = p.without_idle(now);
            let was = p.links[k];
            let silent = was.alive && now > was.last_active + 600_000_000_000;
            &&& q.links.len() == p.links.len()
            &&& q.links[k] == (LinkView { alive: was.alive && !silent, ..was })
            &&& q.rr == p.rr && q.next_id == p.next_id
        }),
{
}

/// The links that are reported as given up are those, by their ids and in their order.
pub proof fn law_silent_links_are_reported(links: Seq<LinkView>, now: u64)
    ensures
        idle_ids(links, now) == links.filter(
            |l: LinkView| l.alive && now > l.last_active + 600_000_000_000,
        ).map_values(|l: LinkView| l.id),
    decreases links.len(),
{
    reveal(Seq::filter);
    let silent = |l: LinkView| l.alive && now > l.last_active + 600_000_000_000;
    let id = |l: LinkView| l.id;
    if links.len() == 0 {
        assert(links.filter(silent).map_values(id) =~= Seq::empty());
    } else {
        let less = links.drop_last();
        law_silent_links_are_reported(less, now);
        let l = links.last();
        if silent(l) {
            assert(less.filter(silent).push(l).map_values(id) =~= less.filter(silent).map_values(
                id,
            ).push(l.id));
        }
    }
}

/// A link that dies keeps everything else, and no other link is touched.
pub proof fn law_a_dead_link_is_only_dead(p: PoolView, k: int, j: int)
    requires
        0 <= k < p.links.len(),
        0 <= j < p.links.len(),
    ensures
        ({
            let q = p.with_dead(k);
            &&& q.links.len() == p.links.len() && q.rr == p.rr && q.next_id == p.next_id
            &&& q.links[j] == (LinkView { alive: p.links[j].alive && j != k, ..p.links[j] })
        }),
{
}

/// What an offer does: a frame that is taken stands behind the others of its link, a full
/// link stays as it is, a closed one is dead; nothing else changes.
pub proof fn law_what_an_offer_does(p: PoolView, k: int, j: int, f: FrameView, outcome: Offer)
    requires
        0 <= k < p.links.len(),
        0 <= j < p.links.len(),
    ensures
        ({
            let q = p.offered(k, f, outcome);
            let was = p.links[j];
            &&& q.links.len() == p.links.len() && q.rr == p.rr && q.next_id == p.next_id
            &&& q.links[j] == (if j != k || outcome == Offer::Full {
                was
            } else if outcome == Offer::Sent {
                LinkView { queued: was.queued.push(f), ..was }
            } else {
                LinkView { alive: false, ..was }
            })
        }),
{
}

/// The first link with an id is the one that is meant by it.
pub proof fn law_links_are_found_by_id(links: Seq<LinkView>, id: u64)
    ensures
        0 <= place(links, id) <= links.len(),
        place(links, id) < links.len() ==> links[place(links, id)].id == id,
        forall|j: int| 0 <= j < place(links, id) ==> (#[trigger] links[j]).id != id,
    decreases links.len(),
{
    if links.len() > 0 && links[0].id != id {
        let rest = links.skip(1);
        law_links_are_found_by_id(rest, id);
        assert forall|j: int| 0 <= j < place(links, id) implies (#[trigger] links[j]).id != id by {
            if j > 0 {
                assert(rest[j - 1] == links[j]);
            }
        }
    }
}

/// A link that turns out to be closed dies, and no other; an id that no link has changes
/// nothing.
pub proof fn law_only_the_link_that_is_meant_dies(p: PoolView, id: u64, j: int)
    requires
        0 <= j < p.links.len(),
    ensures
        p.without(id).links.len() == p.links.len(),
        p.without(id).rr == p.rr && p.without(id).next_id == p.next_id,
        p.links[j].id != id ==> p.without(id).links[j] == p.links[j],
        p.links[j].id == id && (forall|i: int| 0 <= i < j ==> (#[trigger] p.links[i]).id != id)
            ==> p.without(id).links[j] == (LinkView { alive: false, ..p.links[j] }),
        (exists|i: int| 0 <= i < j && (#[trigger] p.links[i]).id == id) ==> p.without(id).links[j]
            == p.links[j],
{
    law_links_are_found_by_id(p.links, id);
    let k = place(p.links, id);
    if k < j {
        assert(p.links[k].id == id);
    }
}

/// Where a round stands: it begins at its start and goes on link by link, around the end.
pub proof fn law_a_round_visits_every_link(start: int, i: int, n: int)
    requires
        0 <= start < n,
        0 <= i < n,
    ensures
        around(start, i, n) == (start + i) % n,
        0 <= around(start, i, n) < n,
        forall|j: int| 0 <= j < n && j != i ==> #[trigger] around(start, j, n) != around(start, i, n),
{
    if i < n - start {
        assert((start + i) % n == start + i) by (nonlinear_arith)
            requires
                0 <= start + i < n,
        ;
    } else {
        assert((start + i) % n == start + i - n) by (nonlinear_arith)
            requires
                n <= start + i < 2 * n,
        ;
    }
}

/// How a round goes on: to the nearest live link at or after a place, and to none only
/// where none is alive from there to its end.
pub proof fn law_a_round_passes_no_live_link(p: PoolView, start: int, from: int, step: RoundStep, i: int)
    requires
        0 <= start < p.links.len(),
        0 <= from <= i < p.links.len(),
        p.goes_on(start, from, step),
        p.links[(start + i) % p.links.len() as int].alive,
    ensures
        step is Offer,
        from <= step->Offer_0 <= i,
        p.links[(start + step->Offer_0 as int) % p.links.len() as int].alive,
{
    let n = p.links.len() as int;
    law_a_round_visits_every_link(start, i, n);
    match step {
        RoundStep::Offer(j) => {
            law_a_round_visits_every_link(start, j as int, n);
        },
        RoundStep::Done(_) => {
            assert(none_live(p.links, start, from, n));
            assert(!p.links[around(start, i, n)].alive);
        },
    }
}

/// A round that finds no live link from a place on says that the frame was not taken.
pub proof fn law_a_round_without_links_fails(p: PoolView, start: int, from: int, step: RoundStep)
    requires
        0 <= start < p.links.len(),
        0 <= from,
        p.goes_on(start, from, step),
        forall|i: int|
            from <= i < p.links.len() ==> !p.links[#[trigger] ((start + i)
                % p.links.len() as int)].alive,
    ensures
        step == RoundStep::Done(false),
{
    match step {
        RoundStep::Offer(j) => {
            law_a_round_visits_every_link(start, j as int, p.links.len() as int);
        },
        RoundStep::Done(_) => {},
    }
}

/// Sending touches the cursor, which moves on by one, the queue of the link that takes the
/// frame, and links that turn out to be closed. The link that takes it was alive and gets
/// the frame once, at the end of its queue; without one, no queue changes. Nothing else
/// changes.
pub proof fn law_what_sending_does(p: PoolView, f: FrameView, end: PoolView, sent: bool)
    requires
        p.sends(f, end, sent),
    ensures
        end.links.len() == p.links.len(),
        end.next_id == p.next_id,
        p.links.len() == 0 ==> end == p && !sent,
        p.links.len() > 0 ==> end.rr == p.rr.wrapping_add(1),
        forall|j: int|
            0 <= j < p.links.len() ==> {
                let was = p.links[j];
                let link = #[trigger] end.links[j];
                &&& link == (LinkView { alive: link.alive, queued: link.queued, ..was })
                &&& link.alive ==> was.alive
                &&& link.queued == was.queued || (sent && link.alive && link.queued == was.queued.push(f))
            },
        sent ==> exists|k: int|
            0 <= k < p.links.len() && p.links[k].alive && (#[trigger] end.links[k]).alive
                && end.links[k].queued == p.links[k].queued.push(f) && forall|j: int|
                0 <= j < p.links.len() && j != k ==> (#[trigger] end.links[j]).queued
                    == p.links[j].queued,
        !sent ==> forall|j: int|
            0 <= j < p.links.len() ==> (#[trigger] end.links[j]).queued == p.links[j].queued,
        (forall|j: int| 0 <= j < p.links.len() ==> !(#[trigger] p.links[j]).alive) ==> !sent
            && end.links == p.links,
{
    if p.links.len() > 0 {
        let n = p.links.len() as int;
        let moved = PoolView { rr: p.rr.wrapping_add(1), ..p };
        let start = p.rr as int % n;
        let outcomes = choose|outcomes: Seq<Offer>| #[trigger]
            moved.round(f, start, 0, outcomes, end, sent);
        assert(moved.round(f, start, 0, outcomes, end, sent));
        let k = lemma_round_does(moved, f, start, 0, outcomes, end, sent);
        assert(sent ==> end.links[k].alive);
    }
}

proof fn lemma_round_does(
    p: PoolView,
    f: FrameView,
    start: int,
    i: int,
    outcomes: Seq<Offer>,
    end: PoolView,
    sent: bool,
) -> (k: int)
    requires
        p.round(f, start, i, outcomes, end, sent),
        0 <= i,
        0 <= start < p.links.len(),
    ensures
        end.links.len() == p.links.len(),
        end.next_id == p.next_id && end.rr == p.rr,
        forall|j: int|
            0 <= j < p.links.len() ==> {
                let was = p.links[j];
                let link = #[trigger] end.links[j];
                &&& link == (LinkView { alive: link.alive, queued: link.queued, ..was })
                &&& link.alive ==> was.alive
                &&& sent && j == k ==> link.alive && link.queued == was.queued.push(f)
                &&& !(sent && j == k) ==> link.queued == was.queued
            },
        sent ==> 0 <= k < p.links.len(),
        (forall|j: int| 0 <= j < p.links.len() ==> !(#[trigger] p.links[j]).alive) ==> !sent
            && end.links == p.links,
    decreases p.links.len() - i,
{
    let n = p.links.len() as int;
    if i < n {
        law_a_round_visits_every_link(start, i, n);
        let k = (start + i) % n;
        if !p.links[k].alive {
            lemma_round_does(p, f, start, i + 1, outcomes, end, sent)
        } else {
            match outcomes[0] {
                Offer::Sent => k,
                Offer::Full => lemma_round_does(p, f, start, i + 1, outcomes.skip(1), end, sent),
                Offer::Closed => {
                    let q = p.with_dead(k);
                    let at = lemma_round_does(q, f, start, i + 1, outcomes.skip(1), end, sent);
                    assert forall|j: int| 0 <= j < n implies {
                        let was = p.links[j];
                        let link = #[trigger] end.links[j];
                        &&& link == (LinkView { alive: link.alive, queued: link.queued, ..was })
                        &&& link.alive ==> was.alive
                        &&& sent && j == at ==> link.alive && link.queued == was.queued.push(f)
                        &&& !(sent && j == at) ==> link.queued == was.queued
                    } by {
                        assert(q.links[j] == (LinkView {
                            alive: p.links[j].alive && j != k,
                            ..p.links[j]
                        }));
                    }
                    at
                },
            }
        }
    } else {
        0
    }
}

/// A link may be offered a frame when it is alive and was not found full.
pub proof fn law_candidates(p: PoolView, full: Seq<u64>, k: int)
    requires
        0 <= k < p.links.len(),
    ensures
        p.is_candidate(full, k) <==> p.links[k].alive && forall|i: int|
            0 <= i < full.len() ==> #[trigger] full[i] != p.links[k].id,
{
    let id = p.links[k].id;
    if full.contains(id) {
        assert(full[full.index_of(id)] == id);
    }
}

/// The link to wait for is alive, and no live link drains faster.
pub proof fn law_the_best_link(p: PoolView, k: int, j: int)
    requires
        p.is_best(k),
        0 <= j < p.links.len(),
        p.links[j].alive,
    ensures
        0 <= k < p.links.len(),
        p.links[k].alive,
        p.links[j].rate_bps <= p.links[k].rate_bps,
        p.links[j].rate_bps == p.links[k].rate_bps ==> j <= k,
{
}

/// Where a link is alive there is one to wait for.
pub proof fn law_there_is_a_best_link(p: PoolView, n: int) -> (k: int)
    requires
        0 <= n <= p.links.len(),
    ensures
        (exists|j: int| 0 <= j < n && (#[trigger] p.links[j]).alive) ==> (PoolView {
            links: p.links.take(n),
            ..p
        }).is_best(k),
    decreases n,
{
    if n <= 0 {
        0
    } else {
        let b = law_there_is_a_best_link(p, n - 1);
        let less = PoolView { links: p.links.take(n - 1), ..p };
        let all = PoolView { links: p.links.take(n), ..p };
        assert forall|j: int| 0 <= j < n - 1 implies less.links[j] == #[trigger] all.links[j] by {}
        if exists|j: int| 0 <= j < n - 1 && (#[trigger] p.links[j]).alive {
            assert(less.is_best(b));
            if p.links[n - 1].alive && p.links[n - 1].rate_bps >= p.links[b].rate_bps {
                n - 1
            } else {
                b
            }
        } else {
            n - 1
        }
    }
}

/// The frames that wait are 128 for each channel but for its free slots; the count stops
/// at the largest number.
pub proof fn law_waiting_frames_are_counted(free: Seq<usize>, more: usize)
    requires
        more <= 128,
    ensures
        depth(Seq::<usize>::empty()) == 0,
        waiting_frames(Seq::<usize>::empty()) == 0,
        waiting_frames(free.push(more)) == waiting_frames(free) + 128 - more,
        waiting_frames(free) <= usize::MAX ==> depth(free) == waiting_frames(free),
        waiting_frames(free) > usize::MAX ==> depth(free) == usize::MAX,
{
    assert(free.push(more).drop_last() =~= free);
}

/// The chunks that a channel took are those that were not refused, in their order.
pub proof fn law_taken_chunks(chunks: Seq<Seq<u8>>, outcomes: Seq<bool>, one: bool)
    ensures
        all_taken(outcomes) <==> !outcomes.contains(false),
        taken(chunks, Seq::empty()) == Seq::<Seq<u8>>::empty(),
        taken(chunks, outcomes.push(one)) == (if one {
            taken(chunks, outcomes).push(chunks[outcomes.len() as int])
        } else {
            taken(chunks, outcomes)
        }),
{
    assert(outcomes.push(one).drop_last() =~= outcomes);
    if !all_taken(outcomes) {
        let i = choose|i: int| 0 <= i < outcomes.len() && !#[trigger] outcomes[i];
        assert(outcomes[i] == false);
    }
}

/// A writer ends when its channel does, when it is told to stop, when a write fails and
/// at a frame that has no wire form, and not before; it never begins again.
pub proof fn law_when_a_writer_ends(d: DrainView, f: FrameView)
    ensures
        d.stopped().dead,
        d.written(false).dead,
        d.dequeued(None).dead,
        f.payload.len() > 65535 ==> d.dequeued(Some(f)).dead,
        d.written(true).dead == d.dead,
        f.payload.len() <= 65535 ==> d.dequeued(Some(f)).dead == d.dead,
{
}

/// A frame that a writer took is being written, then it is written or lost: it is lost
/// when the write fails, when the tunnel is given up meanwhile, and when it has no wire
/// form. What was lost before stays lost, in its order.
pub proof fn law_no_frame_vanishes(d: DrainView, f: FrameView)
    ensures
        f.payload.len() <= 65535 ==> d.dequeued(Some(f)).in_flight == Some(f)
            && d.dequeued(Some(f)).lost == d.lost,
        f.payload.len() > 65535 ==> d.dequeued(Some(f)).lost == d.lost.push(f)
            && d.dequeued(Some(f)).in_flight == d.in_flight,
        d.dequeued(None).lost == d.lost && d.dequeued(None).in_flight == d.in_flight,
        d.in_flight == Some(f) ==> d.stopped().lost == d.lost.push(f),
        d.in_flight == Some(f) ==> d.written(false).lost == d.lost.push(f),
        d.in_flight is None ==> d.stopped().lost == d.lost && d.written(false).lost == d.lost,
        d.written(true).lost == d.lost,
        d.written(true).in_flight is None && d.written(false).in_flight is None
            && d.stopped().in_flight is None,
{
}

} // verus!
