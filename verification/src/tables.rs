//! What this crate takes from the `dashmap` crate, with the contracts it relies on.
//!
//! A [`DashMap`] locks within, so its methods take it by shared reference. Here
//! each table belongs to one state machine and is only ever changed through an
//! exclusive reference, so no other thread can come between, and a table behaves
//! like a plain map.

use crate::clock::{elapsed, span};
use crate::reassembler::{PendingEntry, VirtConnDe};
use crate::splitter::VirtConn;
use crate::sums::lemma_push_contains;
use dashmap::DashMap;
use vstd::prelude::*;

verus! {

#[verifier::external_type_specification]
#[verifier::external_body]
#[verifier::reject_recursive_types(K)]
#[verifier::reject_recursive_types(V)]
#[verifier::reject_recursive_types(S)]
pub struct ExDashMap<K, V, S>(DashMap<K, V, S>);

/// The entries of a table of times.
pub uninterp spec fn stamps(m: DashMap<u32, u64>) -> Map<u32, u64>;

/// The entries of a table of waiting frames.
pub uninterp spec fn waiting(m: DashMap<u32, PendingEntry>) -> Map<u32, PendingEntry>;

/// The entries of a table of egress connections.
pub uninterp spec fn egresses(m: DashMap<u32, VirtConnDe>) -> Map<u32, VirtConnDe>;

/// The entries of a table of client connections.
pub uninterp spec fn clients(m: DashMap<u32, VirtConn>) -> Map<u32, VirtConn>;

/// A list holds every key of a map once and nothing else.
pub open spec fn lists_keys<V>(keys: Seq<u32>, m: Map<u32, V>) -> bool {
    &&& keys.no_duplicates()
    &&& forall|k: u32| keys.contains(k) <==> #[trigger] m.contains_key(k)
}

// ── Tables of times ───────────────────────────────────────────────────

/// `DashMap::new` has no entry.
#[verifier::external_body]
pub(crate) fn stamps_new() -> (r: DashMap<u32, u64>)
    ensures
        stamps(r) == (Map::<u32, u64>::empty()),
{
    DashMap::new()
}

/// `DashMap::insert` sets the entry and returns the one it replaced.
#[verifier::external_body]
pub(crate) fn stamps_insert(m: &mut DashMap<u32, u64>, k: u32, v: u64) -> (r: Option<u64>)
    ensures
        stamps(*final(m)) == stamps(*old(m)).insert(k, v),
        r == (if stamps(*old(m)).contains_key(k) {
            Some(stamps(*old(m))[k])
        } else {
            None
        }),
{
    m.insert(k, v)
}

/// `DashMap::remove` takes the entry out and returns it.
#[verifier::external_body]
pub(crate) fn stamps_remove(m: &mut DashMap<u32, u64>, k: u32) -> (r: Option<u64>)
    ensures
        stamps(*final(m)) == stamps(*old(m)).remove(k),
        r == (if stamps(*old(m)).contains_key(k) {
            Some(stamps(*old(m))[k])
        } else {
            None
        }),
{
    m.remove(&k).map(|e| e.1)
}

/// `DashMap::contains_key` tells whether the key has an entry.
#[verifier::external_body]
pub(crate) fn stamps_contains(m: &DashMap<u32, u64>, k: u32) -> (r: bool)
    ensures
        r == stamps(*m).contains_key(k),
{
    m.contains_key(&k)
}

/// `DashMap::len` counts the entries.
#[verifier::external_body]
pub(crate) fn stamps_len(m: &DashMap<u32, u64>) -> (r: usize)
    ensures
        r == stamps(*m).dom().len(),
{
    m.len()
}

/// `DashMap::iter` visits every entry once, in no particular order.
#[verifier::external_body]
pub(crate) fn stamps_keys(m: &DashMap<u32, u64>) -> (r: Vec<u32>)
    ensures
        lists_keys(r@, stamps(*m)),
{
    m.iter().map(|e| *e.key()).collect()
}

/// Removes the entries of a table of times that are `ttl` old or older.
pub(crate) fn sweep_stamps(m: &mut DashMap<u32, u64>, now: u64, ttl: u64)
    ensures
        stamps(*final(m)) == stamps(*old(m)).restrict(
            Set::new(|k: u32| span(now, stamps(*old(m))[k]) < ttl),
        ),
        stamps(*old(m)).dom().finite() ==> stamps(*final(m)).dom().finite(),
{
    let ghost start = stamps(*m);
    let keys = stamps_keys(m);
    let mut i: usize = 0;
    while i < keys.len()
        invariant
            i <= keys@.len(),
            start == stamps(*old(m)),
            lists_keys(keys@, start),
            forall|k: u32| #[trigger]
                stamps(*m).contains_key(k) <==> start.contains_key(k) && (keys@.take(
                    i as int,
                ).contains(k) ==> span(now, start[k]) < ttl),
            forall|k: u32| #[trigger] stamps(*m).contains_key(k) ==> stamps(*m)[k] == start[k],
        decreases keys.len() - i,
    {
        let k: u32 = keys[i];
        proof {
            let prefix = keys@.take(i as int);
            assert(keys@.take(i + 1) =~= prefix.push(k));
            lemma_push_contains(prefix, k);
            assert(keys@.contains(k));
            assert(!prefix.contains(k)) by {
                if prefix.contains(k) {
                    let j = prefix.index_of(k);
                    assert(keys@[j] == keys@[i as int]);
                }
            }
        }
        match stamps_remove(m, k) {
            Some(since) => {
                if elapsed(now, since) < ttl {
                    stamps_insert(m, k, since);
                }
            },
            None => {},
        }
        i = i + 1;
    }
    proof {
        assert(keys@.take(i as int) =~= keys@);
        let keep = Set::new(|k: u32| span(now, start[k]) < ttl);
        assert(stamps(*m) =~= start.restrict(keep));
        assert(stamps(*m).dom() =~= start.dom().intersect(keep));
    }
}

// ── Tables of waiting frames ──────────────────────────────────────────

/// `DashMap::new` has no entry.
#[verifier::external_body]
pub(crate) fn waiting_new() -> (r: DashMap<u32, PendingEntry>)
    ensures
        waiting(r) == (Map::<u32, PendingEntry>::empty()),
{
    DashMap::new()
}

/// `DashMap::insert` sets the entry and drops the one it replaced.
#[verifier::external_body]
pub(crate) fn waiting_insert(m: &mut DashMap<u32, PendingEntry>, k: u32, v: PendingEntry)
    ensures
        waiting(*final(m)) == waiting(*old(m)).insert(k, v),
{
    m.insert(k, v);
}

/// `DashMap::remove` takes the entry out and returns it.
#[verifier::external_body]
pub(crate) fn waiting_remove(m: &mut DashMap<u32, PendingEntry>, k: u32) -> (r: Option<
    PendingEntry,
>)
    ensures
        waiting(*final(m)) == waiting(*old(m)).remove(k),
        r == (if waiting(*old(m)).contains_key(k) {
            Some(waiting(*old(m))[k])
        } else {
            None
        }),
{
    m.remove(&k).map(|e| e.1)
}

/// `DashMap::get` lends the entry; this looks at when it began to wait and whether it
/// was given up.
#[verifier::external_body]
pub(crate) fn waiting_state(m: &DashMap<u32, PendingEntry>, k: u32) -> (r: Option<(u64, bool)>)
    ensures
        r == (if waiting(*m).contains_key(k) {
            Some((waiting(*m)[k].since, waiting(*m)[k].cancelled))
        } else {
            None
        }),
{
    m.get(&k).map(|e| (e.since, e.cancelled))
}

/// `DashMap::contains_key` tells whether the key has an entry.
#[verifier::external_body]
pub(crate) fn waiting_contains(m: &DashMap<u32, PendingEntry>, k: u32) -> (r: bool)
    ensures
        r == waiting(*m).contains_key(k),
{
    m.contains_key(&k)
}

/// `DashMap::len` counts the entries.
#[verifier::external_body]
pub(crate) fn waiting_len(m: &DashMap<u32, PendingEntry>) -> (r: usize)
    ensures
        r == waiting(*m).dom().len(),
{
    m.len()
}

/// `DashMap::iter` visits every entry once, in no particular order.
#[verifier::external_body]
pub(crate) fn waiting_keys(m: &DashMap<u32, PendingEntry>) -> (r: Vec<u32>)
    ensures
        lists_keys(r@, waiting(*m)),
{
    m.iter().map(|e| *e.key()).collect()
}

// ── Tables of egress connections ──────────────────────────────────────

/// `DashMap::new` has no entry.
#[verifier::external_body]
pub(crate) fn egresses_new() -> (r: DashMap<u32, VirtConnDe>)
    ensures
        egresses(r) == (Map::<u32, VirtConnDe>::empty()),
{
    DashMap::new()
}

/// `DashMap::insert` sets the entry and drops the one it replaced.
#[verifier::external_body]
pub(crate) fn egresses_insert(m: &mut DashMap<u32, VirtConnDe>, k: u32, v: VirtConnDe)
    ensures
        egresses(*final(m)) == egresses(*old(m)).insert(k, v),
{
    m.insert(k, v);
}

/// `DashMap::remove` takes the entry out and returns it.
#[verifier::external_body]
pub(crate) fn egresses_remove(m: &mut DashMap<u32, VirtConnDe>, k: u32) -> (r: Option<VirtConnDe>)
    ensures
        egresses(*final(m)) == egresses(*old(m)).remove(k),
        r == (if egresses(*old(m)).contains_key(k) {
            Some(egresses(*old(m))[k])
        } else {
            None
        }),
{
    m.remove(&k).map(|e| e.1)
}

/// `DashMap::contains_key` tells whether the key has an entry.
#[verifier::external_body]
pub(crate) fn egresses_contains(m: &DashMap<u32, VirtConnDe>, k: u32) -> (r: bool)
    ensures
        r == egresses(*m).contains_key(k),
{
    m.contains_key(&k)
}

/// `DashMap::len` counts the entries.
#[verifier::external_body]
pub(crate) fn egresses_len(m: &DashMap<u32, VirtConnDe>) -> (r: usize)
    ensures
        r == egresses(*m).dom().len(),
{
    m.len()
}

/// `DashMap::iter` visits every entry once, in no particular order.
#[verifier::external_body]
pub(crate) fn egresses_keys(m: &DashMap<u32, VirtConnDe>) -> (r: Vec<u32>)
    ensures
        lists_keys(r@, egresses(*m)),
{
    m.iter().map(|e| *e.key()).collect()
}

// ── Tables of client connections ──────────────────────────────────────

/// `DashMap::new` has no entry.
#[verifier::external_body]
pub(crate) fn clients_new() -> (r: DashMap<u32, VirtConn>)
    ensures
        clients(r) == (Map::<u32, VirtConn>::empty()),
{
    DashMap::new()
}

/// `DashMap::insert` sets the entry and drops the one it replaced.
#[verifier::external_body]
pub(crate) fn clients_insert(m: &mut DashMap<u32, VirtConn>, k: u32, v: VirtConn)
    ensures
        clients(*final(m)) == clients(*old(m)).insert(k, v),
{
    m.insert(k, v);
}

/// `DashMap::remove` takes the entry out and returns it.
#[verifier::external_body]
pub(crate) fn clients_remove(m: &mut DashMap<u32, VirtConn>, k: u32) -> (r: Option<VirtConn>)
    ensures
        clients(*final(m)) == clients(*old(m)).remove(k),
        r == (if clients(*old(m)).contains_key(k) {
            Some(clients(*old(m))[k])
        } else {
            None
        }),
{
    m.remove(&k).map(|e| e.1)
}

/// `DashMap::contains_key` tells whether the key has an entry.
#[verifier::external_body]
pub(crate) fn clients_contains(m: &DashMap<u32, VirtConn>, k: u32) -> (r: bool)
    ensures
        r == clients(*m).contains_key(k),
{
    m.contains_key(&k)
}

/// `DashMap::len` counts the entries.
#[verifier::external_body]
pub(crate) fn clients_len(m: &DashMap<u32, VirtConn>) -> (r: usize)
    ensures
        r == clients(*m).dom().len(),
{
    m.len()
}

/// `DashMap::iter` visits every entry once, in no particular order.
#[verifier::external_body]
pub(crate) fn clients_keys(m: &DashMap<u32, VirtConn>) -> (r: Vec<u32>)
    ensures
        lists_keys(r@, clients(*m)),
{
    m.iter().map(|e| *e.key()).collect()
}

} // verus!
