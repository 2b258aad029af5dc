use vstd::prelude::*;

use crate::error::ServeError;
use crate::group::GroupWriter;
use crate::index_map::{
    has_key, log_contains_key, log_entries, log_get, log_get_index, log_insert, log_len, log_new,
    log_shift_remove_index,
};
use crate::message::GroupOrder;
use indexmap::IndexMap;

verus! {

/// What the cache knows of a group: its sequence number, its priority (smaller
/// is sent first) and how long it lives after insertion, if it expires.
#[derive(Debug, Clone, Copy, PartialEq, Eq, Structural)]
pub struct GroupInfo {
    pub sequence: u64,
    pub priority: u64,
    pub expires: Option<u64>,
}

/// A log entry: a group's sequence number and the group, or `None` once expired.
pub type Entry = (u64, Option<GroupInfo>);

/// The keys of `s` are pairwise distinct.
pub open spec fn unique_keys(s: Seq<Entry>) -> bool {
    forall|i: int, j: int| 0 <= i < j < s.len() ==> s[i].0 != s[j].0
}

/// The set of sequence numbers whose deadline is not after `now`.
pub open spec fn due(expires: Seq<(u64, u64)>, now: u64) -> Set<u64> {
    Set::new(|k: u64| exists|i: int| 0 <= i < expires.len() && (#[trigger] expires[i]).1 == k && expires[i].0 <= now)
}

/// Entries whose key is in `dead` lose their group.
pub open spec fn mark_expired(s: Seq<Entry>, dead: Set<u64>) -> Seq<Entry> {
    s.map_values(|e: Entry| if dead.contains(e.0) { (e.0, None) } else { e })
}

/// `s` without its leading expired entries.
pub open spec fn drop_expired_front(s: Seq<Entry>) -> Seq<Entry>
    decreases s.len(),
{
    if s.len() > 0 && s[0].1 is None {
        drop_expired_front(s.drop_first())
    } else {
        s
    }
}

proof fn lemma_drop_expired_front(s: Seq<Entry>)
    ensures
        exists|k: int| 0 <= k <= s.len() && drop_expired_front(s) == s.subrange(k, s.len() as int) && forall|j: int|
            0 <= j < k ==> (#[trigger] s[j]).1 is None,
    decreases s.len(),
{
    if s.len() > 0 && s[0].1 is None {
        lemma_drop_expired_front(s.drop_first());
        let k = choose|k: int| 0 <= k <= s.drop_first().len() && drop_expired_front(s.drop_first()) == s.drop_first().subrange(k, s.drop_first().len() as int)
            && forall|j: int| 0 <= j < k ==> (#[trigger] s.drop_first()[j]).1 is None;
        assert(s.drop_first().subrange(k, s.drop_first().len() as int) =~= s.subrange(k + 1, s.len() as int));
        assert forall|j: int| 0 <= j < k + 1 implies (#[trigger] s[j]).1 is None by {
            if j > 0 {
                assert(s[j] == s.drop_first()[j - 1]);
            }
        }
    } else {
        assert(s.subrange(0, s.len() as int) =~= s);
    }
}

/// Expiry: after the track expires at `now`, no group whose deadline is not
/// after `now` can be read any more, and every group that was readable and whose
/// deadline is later than `now` still can.
pub proof fn lemma_expiry_visibility(entries: Seq<Entry>, deadlines: Seq<(u64, u64)>, now: u64)
    requires
        unique_keys(entries),
    ensures
        ({
            let after = drop_expired_front(mark_expired(entries, due(deadlines, now)));
            &&& forall|i: int| 0 <= i < after.len() && (#[trigger] after[i]).1 is Some ==> !due(deadlines, now).contains(after[i].0)
            &&& forall|i: int|
                0 <= i < entries.len() && (#[trigger] entries[i]).1 is Some && !due(deadlines, now).contains(entries[i].0)
                    ==> after.contains(entries[i])
        }),
{
    let dead = due(deadlines, now);
    let marked = mark_expired(entries, dead);
    lemma_drop_expired_front(marked);
    let k = choose|k: int| 0 <= k <= marked.len() && drop_expired_front(marked) == marked.subrange(k, marked.len() as int)
        && forall|j: int| 0 <= j < k ==> (#[trigger] marked[j]).1 is None;
    let after = drop_expired_front(marked);
    assert forall|i: int| 0 <= i < after.len() && (#[trigger] after[i]).1 is Some implies !dead.contains(after[i].0) by {
        assert(after[i] == marked[i + k]);
    }
    assert forall|i: int|
        0 <= i < entries.len() && (#[trigger] entries[i]).1 is Some && !dead.contains(entries[i].0) implies after.contains(entries[i]) by {
        assert(marked[i] == entries[i]);
        if i < k {
            assert(marked[i].1 is None);
        }
        assert(after[i - k] == marked[i]);
    }
}

/// The live groups of `s`, in order.
pub open spec fn live(s: Seq<Entry>) -> Seq<GroupInfo>
    decreases s.len(),
{
    if s.len() == 0 {
        Seq::empty()
    } else {
        live(s.drop_last()) + match s.last().1 {
            Some(g) => seq![g],
            None => Seq::empty(),
        }
    }
}

/// The deadline of a group inserted at `now`.
pub open spec fn deadline(now: u64, ttl: u64) -> u64 {
    if now + ttl > u64::MAX {
        u64::MAX
    } else {
        (now + ttl) as u64
    }
}

/// The outcome of inserting `group` at `now` into `before`, giving `after` and
/// `r`.
pub open spec fn insert_post(before: State, after: State, group: GroupInfo, now: u64, r: Result<(), ServeError>) -> bool {
    let dl = match group.expires {
        Some(ttl) => before.deadlines().push((deadline(now, ttl), group.sequence)),
        None => before.deadlines(),
    };
    if before.closed() is Err {
        r == before.closed() && after.same(&before)
    } else if has_key(before.entries(), group.sequence) {
        r == Err::<(), ServeError>(ServeError::Duplicate) && after.same(&before)
    } else {
        &&& r == Ok::<(), ServeError>(())
        &&& after.closed() == before.closed()
        &&& after.consumers() == before.consumers()
        &&& after.entries() == drop_expired_front(
            mark_expired(before.entries().push((group.sequence, Some(group))), due(dl, now)),
        )
        &&& after.pruned() + after.entries().len() == before.pruned() + before.entries().len() + 1
        &&& forall|x: (u64, u64)| #[trigger] after.deadlines().contains(x) <==> dl.contains(x) && x.0 > now
    }
}

/// The outcome of a consumer letting go of `before`, giving `after`.
pub open spec fn unsubscribe_post(before: State, after: State) -> bool {
    &&& after.entries() == before.entries()
    &&& after.deadlines() == before.deadlines()
    &&& after.pruned() == before.pruned()
    &&& after.consumers() == before.consumers() - 1
    &&& after.closed() == if after.consumers() == 0 && before.closed() is Ok {
        Err(ServeError::Closed)
    } else {
        before.closed()
    }
}

/// Once the last consumer lets go, the producer finds the track closed; with
/// consumers left, nothing changes for it.
pub proof fn lemma_last_consumer_closes(before: State, after: State)
    requires
        unsubscribe_post(before, after),
    ensures
        before.consumers() == 1 ==> after.closed() is Err,
        before.consumers() > 1 ==> after.closed() == before.closed(),
{
}

/// The shared state of a track: the log of groups in order of insertion, the
/// deadlines of those that expire, how many entries were pruned from the front
/// of the log, and whether the track is closed.
pub struct State {
    lookup: IndexMap<u64, Option<GroupInfo>>,
    expires: Vec<(u64, u64)>,
    pruned: usize,
    closed: Result<(), ServeError>,
    consumers: usize,
}

impl State {
    pub closed spec fn entries(&self) -> Seq<Entry> {
        log_entries(self.lookup)
    }

    /// Pending deadlines, as (deadline, sequence) pairs.
    pub closed spec fn deadlines(&self) -> Seq<(u64, u64)> {
        self.expires@
    }

    pub closed spec fn pruned(&self) -> nat {
        self.pruned as nat
    }

    pub closed spec fn closed(&self) -> Result<(), ServeError> {
        self.closed
    }

    /// The number of consumers still holding the track.
    pub closed spec fn consumers(&self) -> nat {
        self.consumers as nat
    }

    pub open spec fn wf(&self) -> bool {
        &&& unique_keys(self.entries())
        &&& forall|i: int| 0 <= i < self.entries().len() ==> match (#[trigger] self.entries()[i]).1 {
            Some(g) => g.sequence == self.entries()[i].0,
            None => true,
        }
        &&& self.pruned() + self.entries().len() <= usize::MAX
    }

    pub fn new() -> (r: State)
        ensures
            r.wf(),
            r.entries() == Seq::<Entry>::empty(),
            r.deadlines() == Seq::<(u64, u64)>::empty(),
            r.pruned() == 0,
            r.closed() == Ok::<(), ServeError>(()),
            r.consumers() == 0,
    {
        State { lookup: log_new(), expires: Vec::new(), pruned: 0, closed: Ok(()), consumers: 0 }
    }

    /// How the track ended, once it did: the producer's view of `closed`.
    pub fn closed_result(&self) -> (r: Result<(), ServeError>)
        ensures
            r == self.closed(),
    {
        self.closed
    }

    /// Registers a new consumer, which takes groups in `order`.
    pub fn subscribe(&mut self, order: GroupOrder) -> (r: Subscriber)
        requires
            old(self).consumers() < usize::MAX,
        ensures
            final(self).entries() == old(self).entries(),
            final(self).deadlines() == old(self).deadlines(),
            final(self).pruned() == old(self).pruned(),
            final(self).closed() == old(self).closed(),
            final(self).consumers() == old(self).consumers() + 1,
            r.index() == 0,
            r.pending() == Seq::<GroupInfo>::empty(),
            r.order() == order,
    {
        self.consumers = self.consumers + 1;
        Subscriber::new(order)
    }

    /// A consumer lets go of the track; when it was the last one, the track
    /// closes, and the producer sees it closed.
    pub fn unsubscribe(&mut self, _consumer: Subscriber)
        requires
            old(self).consumers() > 0,
        ensures
            unsubscribe_post(*old(self), *final(self)),
    {
        self.consumers = self.consumers - 1;
        if self.consumers == 0 {
            let _ = self.close(ServeError::Closed);
        }
    }

    /// Number of log positions used so far, pruned ones included.
    pub fn positions(&self) -> (r: usize)
        requires
            self.wf(),
        ensures
            r == self.pruned() + self.entries().len(),
    {
        self.pruned + log_len(&self.lookup)
    }

    /// Closes the track with `err`; the first error set stays.
    pub fn close(&mut self, err: ServeError) -> (r: Result<(), ServeError>)
        ensures
            final(self).entries() == old(self).entries(),
            final(self).deadlines() == old(self).deadlines(),
            final(self).pruned() == old(self).pruned(),
            final(self).consumers() == old(self).consumers(),
            old(self).closed() is Err ==> r == old(self).closed() && final(self).closed() == old(self).closed(),
            old(self).closed() is Ok ==> r == Ok::<(), ServeError>(()) && final(self).closed() == Err::<(), ServeError>(err),
    {
        if let Err(e) = self.closed {
            return Err(e);
        }
        self.closed = Err(err);
        Ok(())
    }

    /// The observable state is the same in `self` and `other`.
    pub open spec fn same(&self, other: &State) -> bool {
        &&& self.entries() == other.entries()
        &&& self.deadlines() == other.deadlines()
        &&& self.pruned() == other.pruned()
        &&& self.closed() == other.closed()
        &&& self.consumers() == other.consumers()
    }

    /// Inserts a group at `now`. A closed track refuses it with its error, a
    /// sequence number already in the log with `Duplicate`. Groups that are due
    /// by `now` expire afterwards.
    pub fn insert(&mut self, group: GroupInfo, now: u64) -> (r: Result<(), ServeError>)
        requires
            old(self).wf(),
            old(self).pruned() + old(self).entries().len() < usize::MAX,
        ensures
            final(self).wf(),
            insert_post(*old(self), *final(self), group, now, r),
    {
        if let Err(e) = self.closed {
            return Err(e);
        }
        if log_contains_key(&self.lookup, group.sequence) {
            return Err(ServeError::Duplicate);
        }
        if let Some(ttl) = group.expires {
            self.expires.push((now.saturating_add(ttl), group.sequence));
        }
        let ghost before = self.entries();
        let _ = log_insert(&mut self.lookup, group.sequence, Some(group));
        proof {
            assert forall|i: int, j: int| 0 <= i < j < self.entries().len() implies self.entries()[i].0 != self.entries()[j].0 by {
                if j == before.len() {
                    assert(before[i].0 != group.sequence);
                }
            }
            assert forall|i: int| 0 <= i < self.entries().len() implies match (#[trigger] self.entries()[i]).1 {
                Some(g) => g.sequence == self.entries()[i].0,
                None => true,
            } by {
                if i < before.len() {
                    assert(self.entries()[i] == before[i]);
                }
            }
        }
        self.expire(now);
        Ok(())
    }

    /// Whether the first entry of the log has expired.
    fn front_expired(&self) -> (r: bool)
        ensures
            r == (self.entries().len() > 0 && self.entries()[0].1 is None),
    {
        match log_get_index(&self.lookup, 0) {
            Some((_, v)) => v.is_none(),
            None => false,
        }
    }

    /// Expires every group whose deadline is not after `now`, then prunes the
    /// expired entries at the front of the log.
    pub fn expire(&mut self, now: u64)
        requires
            old(self).wf(),
        ensures
            final(self).wf(),
            final(self).closed() == old(self).closed(),
            final(self).consumers() == old(self).consumers(),
            final(self).entries() == drop_expired_front(mark_expired(old(self).entries(), due(old(self).deadlines(), now))),
            final(self).pruned() + final(self).entries().len() == old(self).pruned() + old(self).entries().len(),
            forall|x: (u64, u64)| #[trigger] final(self).deadlines().contains(x) <==> old(self).deadlines().contains(x) && x.0 > now,
    {
        let ghost old_entries = self.entries();
        let ghost old_dl = self.expires@;
        let mut kept: Vec<(u64, u64)> = Vec::new();
        let mut i: usize = 0;
        while i < self.expires.len()
            invariant
                i <= self.expires@.len(),
                self.expires@ == old_dl,
                unique_keys(self.entries()),
                self.entries() == mark_expired(old_entries, due(old_dl.subrange(0, i as int), now)),
                self.pruned == old(self).pruned,
                self.closed == old(self).closed,
                self.consumers == old(self).consumers,
                forall|j: int| 0 <= j < kept@.len() ==> (#[trigger] kept@[j]).0 > now && old_dl.contains(kept@[j]),
                forall|j: int| 0 <= j < i && (#[trigger] old_dl[j]).0 > now ==> kept@.contains(old_dl[j]),
            decreases self.expires.len() - i,
        {
            let (t, k) = self.expires[i];
            let ghost before = self.entries();
            let ghost d0 = due(old_dl.subrange(0, i as int), now);
            let ghost d1 = due(old_dl.subrange(0, i + 1), now);
            proof {
                assert forall|x: u64| d1.contains(x) <==> (d0.contains(x) || (t <= now && x == k)) by {
                    if d1.contains(x) {
                        let j = choose|j: int| 0 <= j < i + 1 && (#[trigger] old_dl.subrange(0, i + 1)[j]).1 == x
                            && old_dl.subrange(0, i + 1)[j].0 <= now;
                        if j < i {
                            assert(old_dl.subrange(0, i as int)[j] == old_dl[j]);
                        }
                    }
                    if d0.contains(x) {
                        let j = choose|j: int| 0 <= j < i && (#[trigger] old_dl.subrange(0, i as int)[j]).1 == x
                            && old_dl.subrange(0, i as int)[j].0 <= now;
                        assert(old_dl.subrange(0, i + 1)[j] == old_dl[j]);
                    }
                    if t <= now && x == k {
                        assert(old_dl.subrange(0, i + 1)[i as int] == old_dl[i as int]);
                    }
                }
            }
            if t <= now {
                if log_contains_key(&self.lookup, k) {
                    let _ = log_insert(&mut self.lookup, k, None);
                    proof {
                        let j = choose|j: int| 0 <= j < before.len() && (#[trigger] before[j]).0 == k;
                        assert(self.entries() =~= mark_expired(old_entries, d1)) by {
                            assert forall|m: int| 0 <= m < old_entries.len() implies self.entries()[m] == mark_expired(old_entries, d1)[m] by {
                                if m != j {
                                    assert(before[m].0 != k);
                                }
                            }
                        }
                    }
                } else {
                    proof {
                        assert(self.entries() =~= mark_expired(old_entries, d1)) by {
                            assert forall|m: int| 0 <= m < old_entries.len() implies self.entries()[m] == mark_expired(old_entries, d1)[m] by {
                                assert(before[m].0 == old_entries[m].0);
                            }
                        }
                    }
                }
            } else {
                let ghost kb = kept@;
                kept.push((t, k));
                proof {
                    assert(d1 =~= d0);
                    assert(old_dl.contains(old_dl[i as int]));
                    assert forall|j: int| 0 <= j < i + 1 && (#[trigger] old_dl[j]).0 > now implies kept@.contains(old_dl[j]) by {
                        if j < i {
                            let m = choose|m: int| 0 <= m < kb.len() && kb[m] == old_dl[j];
                            assert(kept@[m] == old_dl[j]);
                        } else {
                            assert(kept@[kb.len() as int] == old_dl[j]);
                        }
                    }
                }
            }
            i = i + 1;
        }
        proof {
            assert(old_dl.subrange(0, i as int) =~= old_dl);
            assert forall|x: (u64, u64)| #[trigger] kept@.contains(x) <==> old_dl.contains(x) && x.0 > now by {
                if kept@.contains(x) {
                    let j = choose|j: int| 0 <= j < kept@.len() && kept@[j] == x;
                    assert(kept@[j].0 > now && old_dl.contains(kept@[j]));
                }
                if old_dl.contains(x) && x.0 > now {
                    let j = choose|j: int| 0 <= j < old_dl.len() && old_dl[j] == x;
                    assert(old_dl[j].0 > now);
                }
            }
        }
        self.expires = kept;
        let ghost marked = self.entries();
        while self.front_expired()
            invariant
                unique_keys(self.entries()),
                drop_expired_front(self.entries()) == drop_expired_front(marked),
                self.pruned + self.entries().len() == old(self).pruned + marked.len(),
                self.closed == old(self).closed,
                self.consumers == old(self).consumers,
                forall|x: (u64, u64)| #[trigger] self.expires@.contains(x) <==> old_dl.contains(x) && x.0 > now,
                forall|j: int| 0 <= j < self.entries().len() ==> match (#[trigger] self.entries()[j]).1 {
                    Some(g) => g.sequence == self.entries()[j].0,
                    None => true,
                },
                old(self).pruned + marked.len() <= usize::MAX,
            decreases self.entries().len(),
        {
            let ghost before = self.entries();
            let _ = log_shift_remove_index(&mut self.lookup, 0);
            proof {
                assert(self.entries() =~= before.drop_first());
            }
            self.pruned = self.pruned + 1;
        }
        proof {
            assert(self.entries().len() > 0 ==> self.entries()[0].1 is Some);
        }
    }
}

/// What a consumer's poll of a track gives.
#[derive(Debug, Clone, Copy, PartialEq, Eq, Structural)]
pub enum Next {
    /// The most urgent group not handed out yet.
    Group(GroupInfo),
    /// The track ended normally.
    Ended,
    /// The track ended with an error.
    Failed(ServeError),
    /// Nothing new yet: wait for the track to change and poll again.
    Pending,
}

/// Whether `a` goes out before `b`: lower priority value first, then by
/// sequence number in the consumer's group order.
pub open spec fn better(a: GroupInfo, b: GroupInfo, order: GroupOrder) -> bool {
    a.priority < b.priority || (a.priority == b.priority && match order {
        GroupOrder::Desc => a.sequence > b.sequence,
        GroupOrder::Asc => a.sequence < b.sequence,
    })
}

fn is_better(a: &GroupInfo, b: &GroupInfo, order: GroupOrder) -> (r: bool)
    ensures
        r == better(*a, *b, order),
{
    a.priority < b.priority || (a.priority == b.priority && match order {
        GroupOrder::Desc => a.sequence > b.sequence,
        GroupOrder::Asc => a.sequence < b.sequence,
    })
}

/// Order of delivery within one priority: when every group a poll has seen
/// shares one priority, has its own sequence number and is newer than the last
/// group handed out, the group handed out under ascending order is newer than
/// that one and older than every group left pending. Repeated at each poll, the
/// consumer sees strictly increasing sequence numbers.
pub proof fn lemma_ascending_delivery(seen: Seq<GroupInfo>, j: int, last: int)
    requires
        0 <= j < seen.len(),
        forall|k: int| 0 <= k < seen.len() ==> (#[trigger] seen[k]).sequence > last,
        forall|k: int| 0 <= k < seen.len() ==> (#[trigger] seen[k]).priority == seen[j].priority,
        forall|a: int, b: int| 0 <= a < b < seen.len() ==> seen[a].sequence != seen[b].sequence,
        forall|k: int| 0 <= k < seen.len() ==> !better(#[trigger] seen[k], seen[j], GroupOrder::Asc),
    ensures
        seen[j].sequence > last,
        forall|k: int| 0 <= k < seen.remove(j).len() ==> (#[trigger] seen.remove(j)[k]).sequence > seen[j].sequence,
{
    assert forall|k: int| 0 <= k < seen.remove(j).len() implies (#[trigger] seen.remove(j)[k]).sequence > seen[j].sequence by {
        let m = if k < j { k } else { k + 1 };
        assert(seen.remove(j)[k] == seen[m]);
        assert(!better(seen[m], seen[j], GroupOrder::Asc));
        if m < j {
            assert(seen[m].sequence != seen[j].sequence);
        } else {
            assert(seen[j].sequence != seen[m].sequence);
        }
    }
}

/// What makes a consumer's deliveries come in increasing order, for a track
/// whose live groups all have priority `prio` and whose producer has inserted
/// no sequence number above `high`: the consumer's pending groups are
/// distinct, newer than the last one handed out (`last`) and not above
/// `high`; the live groups it has not looked at yet are newer than `last` and
/// not pending; its cursor is within the log.
pub open spec fn ascending_view(state: State, sub: Subscriber, last: int, high: int, prio: u64) -> bool {
    let es = state.entries();
    let pend = sub.pending();
    &&& state.wf()
    &&& sub.order() == GroupOrder::Asc
    &&& sub.index() <= state.pruned() + es.len()
    &&& last <= high
    &&& forall|j: int| 0 <= j < es.len() && (#[trigger] es[j]).1 is Some ==> es[j].1->Some_0.priority == prio && es[j].0 <= high
    &&& forall|k: int| 0 <= k < pend.len() ==> (#[trigger] pend[k]).priority == prio && last < pend[k].sequence <= high
    &&& forall|a: int, b: int| 0 <= a < b < pend.len() ==> pend[a].sequence != pend[b].sequence
    &&& forall|j: int|
        0 <= j < es.len() && state.pruned() + j >= sub.index() && (#[trigger] es[j]).1 is Some ==> es[j].0 > last && forall|k: int|
            0 <= k < pend.len() ==> (#[trigger] pend[k]).sequence != es[j].0
}

proof fn lemma_still_live(s: Seq<GroupInfo>, es: Seq<Entry>)
    ensures
        forall|i: int| 0 <= i < still_live(s, es).len() ==> s.contains(#[trigger] still_live(s, es)[i]) && es.contains(
            (still_live(s, es)[i].sequence, Some(still_live(s, es)[i])),
        ),
        (forall|a: int, b: int| 0 <= a < b < s.len() ==> s[a].sequence != s[b].sequence) ==> (forall|a: int, b: int|
            0 <= a < b < still_live(s, es).len() ==> still_live(s, es)[a].sequence != still_live(s, es)[b].sequence),
    decreases s.len(),
{
    reveal(Seq::filter);
    if s.len() > 0 {
        let p = s.drop_last();
        lemma_still_live(p, es);
        let fp = still_live(p, es);
        let f = still_live(s, es);
        let x = s.last();
        assert(f == if es.contains((x.sequence, Some(x))) { fp.push(x) } else { fp });
        assert forall|i: int| 0 <= i < f.len() implies s.contains(#[trigger] f[i]) && es.contains((f[i].sequence, Some(f[i]))) by {
            if i < fp.len() {
                assert(f[i] == fp[i]);
                let m = choose|m: int| 0 <= m < p.len() && p[m] == fp[i];
                assert(s[m] == p[m]);
            } else {
                assert(f[i] == x);
                assert(s[s.len() - 1] == x);
            }
        }
        if forall|a: int, b: int| 0 <= a < b < s.len() ==> s[a].sequence != s[b].sequence {
            assert forall|a: int, b: int| 0 <= a < b < p.len() implies p[a].sequence != p[b].sequence by {
                assert(p[a] == s[a] && p[b] == s[b]);
            }
            assert forall|a: int, b: int| 0 <= a < b < f.len() implies f[a].sequence != f[b].sequence by {
                if b < fp.len() {
                    assert(f[a] == fp[a] && f[b] == fp[b]);
                } else {
                    assert(f[a] == fp[a] && f[b] == x);
                    let m = choose|m: int| 0 <= m < p.len() && p[m] == fp[a];
                    assert(s[m] == p[m]);
                    assert(s[s.len() - 1] == x);
                }
            }
        }
    } else {
        assert(still_live(s, es) =~= Seq::<GroupInfo>::empty());
    }
}

proof fn lemma_live_from(s: Seq<Entry>)
    ensures
        forall|k: int| #![trigger live(s)[k]] 0 <= k < live(s).len() ==> exists|j: int| 0 <= j < s.len() && (#[trigger] s[j]).1 == Some(live(s)[k]),
    decreases s.len(),
{
    if s.len() > 0 {
        let p = s.drop_last();
        lemma_live_from(p);
        assert forall|k: int| #![trigger live(s)[k]] 0 <= k < live(s).len() implies exists|j: int| 0 <= j < s.len() && (#[trigger] s[j]).1 == Some(live(s)[k]) by {
            if k < live(p).len() {
                let j = choose|j: int| 0 <= j < p.len() && (#[trigger] p[j]).1 == Some(live(p)[k]);
                assert(s[j] == p[j]);
                assert(live(s)[k] == live(p)[k]);
            } else {
                assert(s[s.len() - 1].1 == Some(live(s)[k]));
            }
        }
    }
}

proof fn lemma_live_distinct(s: Seq<Entry>)
    requires
        unique_keys(s),
        forall|j: int| 0 <= j < s.len() ==> match (#[trigger] s[j]).1 {
            Some(g) => g.sequence == s[j].0,
            None => true,
        },
    ensures
        forall|a: int, b: int| 0 <= a < b < live(s).len() ==> live(s)[a].sequence != live(s)[b].sequence,
    decreases s.len(),
{
    if s.len() > 0 {
        let p = s.drop_last();
        assert forall|j: int| 0 <= j < p.len() implies match (#[trigger] p[j]).1 {
            Some(g) => g.sequence == p[j].0,
            None => true,
        } by {
            assert(p[j] == s[j]);
        }
        lemma_live_distinct(p);
        lemma_live_from(p);
        assert forall|a: int, b: int| 0 <= a < b < live(s).len() implies live(s)[a].sequence != live(s)[b].sequence by {
            if b >= live(p).len() {
                let ja = choose|j: int| 0 <= j < p.len() && (#[trigger] p[j]).1 == Some(live(p)[a]);
                assert(live(s)[a] == live(p)[a]);
                assert(s[ja] == p[ja]);
                assert(s[s.len() - 1].1 == Some(live(s)[b]));
                assert(s[ja].0 != s[s.len() - 1].0);
            } else {
                assert(live(s)[a] == live(p)[a]);
                assert(live(s)[b] == live(p)[b]);
            }
        }
    }
}

/// A poll keeps deliveries in increasing order: within one priority and in
/// ascending order, the group a poll hands out is newer than the last one
/// handed out, and the consumer keeps the facts for the next poll.
pub proof fn lemma_poll_ascending(state: State, before: Subscriber, after: Subscriber, r: Next, last: int, high: int, prio: u64)
    requires
        ascending_view(state, before, last, high, prio),
        poll_post(before, after, state, r),
    ensures
        r matches Next::Group(g) ==> g.sequence > last && ascending_view(state, after, g.sequence as int, high, prio),
        !(r is Group) ==> ascending_view(state, after, last, high, prio),
{
    let es = state.entries();
    let len = es.len();
    let start = resume_at(before.index(), state.pruned(), len);
    let tail = es.subrange(start as int, len as int);
    let seen = poll_seen(before, state);
    let pend0 = before.pending();
    lemma_still_live(pend0, es);
    let pend = still_live(pend0, es);
    assert forall|k: int| 0 <= k < pend.len() implies (#[trigger] pend[k]).priority == prio && last < pend[k].sequence <= high
        && forall|j: int|
        0 <= j < es.len() && state.pruned() + j >= before.index() && es[j].1 is Some ==> es[j].0 != pend[k].sequence by {
        let m = choose|m: int| 0 <= m < pend0.len() && pend0[m] == pend[k];
        assert(pend0[m].priority == prio);
        assert forall|j: int| 0 <= j < es.len() && state.pruned() + j >= before.index() && es[j].1 is Some implies es[j].0
            != pend[k].sequence by {
            assert((#[trigger] es[j]).1 is Some);
            assert(pend0[m].sequence != es[j].0);
        }
    }
    assert(unique_keys(tail)) by {
        assert forall|a: int, b: int| 0 <= a < b < tail.len() implies tail[a].0 != tail[b].0 by {
            assert(tail[a] == es[start + a]);
            assert(tail[b] == es[start + b]);
        }
    }
    assert forall|j: int| 0 <= j < tail.len() implies match (#[trigger] tail[j]).1 {
        Some(g) => g.sequence == tail[j].0,
        None => true,
    } by {
        assert(tail[j] == es[start + j]);
    }
    lemma_live_from(tail);
    lemma_live_distinct(tail);
    let lv = live(tail);
    assert(seen == pend + lv);
    // Every group seen is newer than `last`, has priority `prio`, is at most `high`.
    assert forall|k: int| 0 <= k < seen.len() implies (#[trigger] seen[k]).priority == prio && last < seen[k].sequence <= high
        && (k >= pend.len() ==> forall|m: int| 0 <= m < pend.len() ==> (#[trigger] pend[m]).sequence != seen[k].sequence) by {
        if k >= pend.len() {
            let kk = k - pend.len();
            assert(seen[k] == lv[kk]);
            let j = choose|j: int| 0 <= j < tail.len() && (#[trigger] tail[j]).1 == Some(lv[kk]);
            assert(tail[j] == es[start + j]);
            assert(state.pruned() + (start + j) >= before.index());
            assert(es[start + j].1 is Some);
            assert forall|m: int| 0 <= m < pend.len() implies (#[trigger] pend[m]).sequence != seen[k].sequence by {
                assert(es[start + j].0 != pend[m].sequence);
            }
        } else {
            assert(seen[k] == pend[k]);
        }
    }
    assert forall|a: int, b: int| 0 <= a < b < seen.len() implies seen[a].sequence != seen[b].sequence by {
        if b < pend.len() {
            assert(seen[a] == pend[a] && seen[b] == pend[b]);
        } else if a >= pend.len() {
            assert(seen[a] == lv[a - pend.len()] && seen[b] == lv[b - pend.len()]);
        } else {
            assert(seen[a] == pend[a]);
            assert(pend[a].sequence != seen[b].sequence);
        }
    }
    assert(after.index() == state.pruned() + len);
    if seen.len() > 0 {
        let j = choose|j: int| 0 <= j < seen.len() && r == Next::Group(seen[j]) && after.pending() == seen.remove(j)
            && forall|k: int| 0 <= k < seen.len() ==> !better(#[trigger] seen[k], seen[j], before.order());
        lemma_ascending_delivery(seen, j, last);
        let g = seen[j];
        let rest = seen.remove(j);
        assert forall|k: int| 0 <= k < rest.len() implies (#[trigger] rest[k]).priority == prio && g.sequence < rest[k].sequence <= high by {
            let m = if k < j { k } else { k + 1 };
            assert(rest[k] == seen[m]);
        }
        assert forall|a: int, b: int| 0 <= a < b < rest.len() implies rest[a].sequence != rest[b].sequence by {
            let ma = if a < j { a } else { a + 1 };
            let mb = if b < j { b } else { b + 1 };
            assert(rest[a] == seen[ma] && rest[b] == seen[mb]);
        }
    }
}

/// The facts of `ascending_view` about a log `src` at offset `pruned`, before
/// expiry and pruning.
pub open spec fn ascending_log(src: Seq<Entry>, pruned: nat, sub: Subscriber, last: int, high: int, prio: u64) -> bool {
    let pend = sub.pending();
    &&& sub.order() == GroupOrder::Asc
    &&& sub.index() <= pruned + src.len()
    &&& last <= high
    &&& forall|j: int| 0 <= j < src.len() && (#[trigger] src[j]).1 is Some ==> src[j].1->Some_0.priority == prio && src[j].0 <= high
    &&& forall|k: int| 0 <= k < pend.len() ==> (#[trigger] pend[k]).priority == prio && last < pend[k].sequence <= high
    &&& forall|a: int, b: int| 0 <= a < b < pend.len() ==> pend[a].sequence != pend[b].sequence
    &&& forall|j: int|
        0 <= j < src.len() && pruned + j >= sub.index() && (#[trigger] src[j]).1 is Some ==> src[j].0 > last && forall|k: int|
            0 <= k < pend.len() ==> (#[trigger] pend[k]).sequence != src[j].0
}

proof fn lemma_ascending_after_expiry(
    src: Seq<Entry>,
    dead: Set<u64>,
    pruned: nat,
    after: State,
    sub: Subscriber,
    last: int,
    high: int,
    prio: u64,
)
    requires
        ascending_log(src, pruned, sub, last, high, prio),
        after.wf(),
        after.entries() == drop_expired_front(mark_expired(src, dead)),
        after.pruned() + after.entries().len() == pruned + src.len(),
    ensures
        ascending_view(after, sub, last, high, prio),
{
    let marked = mark_expired(src, dead);
    lemma_drop_expired_front(marked);
    let k = choose|k: int| 0 <= k <= marked.len() && drop_expired_front(marked) == marked.subrange(k, marked.len() as int)
        && forall|j: int| 0 <= j < k ==> (#[trigger] marked[j]).1 is None;
    let es = after.entries();
    assert(after.pruned() == pruned + k);
    assert forall|j: int| 0 <= j < es.len() && (#[trigger] es[j]).1 is Some implies src[k + j].1 == es[j].1 && src[k + j].0 == es[j].0 by {
        assert(es[j] == marked[k + j]);
    }
    assert forall|j: int| 0 <= j < es.len() && (#[trigger] es[j]).1 is Some implies es[j].1->Some_0.priority == prio && es[j].0 <= high by {
        assert(src[k + j].1 is Some);
    }
    assert forall|j: int|
        0 <= j < es.len() && after.pruned() + j >= sub.index() && (#[trigger] es[j]).1 is Some implies es[j].0 > last && forall|m: int|
            0 <= m < sub.pending().len() ==> (#[trigger] sub.pending()[m]).sequence != es[j].0 by {
        assert(src[k + j].1 is Some);
        assert(pruned + (k + j) >= sub.index());
    }
}

/// Expiry keeps deliveries in increasing order.
pub proof fn lemma_expire_ascending(before: State, after: State, sub: Subscriber, now: u64, last: int, high: int, prio: u64)
    requires
        ascending_view(before, sub, last, high, prio),
        after.wf(),
        after.entries() == drop_expired_front(mark_expired(before.entries(), due(before.deadlines(), now))),
        after.pruned() + after.entries().len() == before.pruned() + before.entries().len(),
    ensures
        ascending_view(after, sub, last, high, prio),
{
    lemma_ascending_after_expiry(before.entries(), due(before.deadlines(), now), before.pruned(), after, sub, last, high, prio);
}

/// A producer that inserts a sequence number above every one before it, at
/// the track's one priority, keeps deliveries in increasing order.
pub proof fn lemma_insert_ascending(before: State, after: State, group: GroupInfo, now: u64, sub: Subscriber, last: int, high: int, prio: u64)
    requires
        ascending_view(before, sub, last, high, prio),
        after.wf(),
        insert_post(before, after, group, now, Ok(())),
        group.sequence > high,
        group.priority == prio,
    ensures
        ascending_view(after, sub, last, group.sequence as int, prio),
{
    let src = before.entries().push((group.sequence, Some(group)));
    let dl = match group.expires {
        Some(ttl) => before.deadlines().push((deadline(now, ttl), group.sequence)),
        None => before.deadlines(),
    };
    let n = before.entries().len();
    assert forall|j: int| 0 <= j < src.len() && (#[trigger] src[j]).1 is Some implies src[j].1->Some_0.priority == prio
        && src[j].0 <= group.sequence by {
        if j < n {
            assert(src[j] == before.entries()[j]);
        }
    }
    assert forall|j: int|
        0 <= j < src.len() && before.pruned() + j >= sub.index() && (#[trigger] src[j]).1 is Some implies src[j].0 > last
            && forall|k: int| 0 <= k < sub.pending().len() ==> (#[trigger] sub.pending()[k]).sequence != src[j].0 by {
        if j < n {
            assert(src[j] == before.entries()[j]);
        }
    }
    lemma_ascending_after_expiry(src, due(dl, now), before.pruned(), after, sub, last, group.sequence as int, prio);
}

/// A new track and a new consumer that takes groups in ascending order start
/// with nothing handed out.
pub proof fn lemma_ascending_start(state: State, sub: Subscriber, prio: u64)
    requires
        state.wf(),
        state.entries().len() == 0,
        sub.index() == 0,
        sub.pending().len() == 0,
        sub.order() == GroupOrder::Asc,
    ensures
        ascending_view(state, sub, -1, -1, prio),
{
}

/// The log position a consumer at absolute position `index` resumes from.
pub open spec fn resume_at(index: nat, pruned: nat, len: nat) -> nat {
    let adj: nat = if index >= pruned { (index - pruned) as nat } else { 0 };
    if adj > len { len } else { adj }
}

/// The groups a poll of `state` has to choose from: those pending at
/// `before`, then the live ones added to the log since its last poll.
pub open spec fn poll_seen(before: Subscriber, state: State) -> Seq<GroupInfo> {
    let len = state.entries().len();
    let start = resume_at(before.index(), state.pruned(), len);
    still_live(before.pending(), state.entries()) + live(state.entries().subrange(start as int, len as int))
}

/// The pending groups that are still live in the log: those that expired
/// since they were seen are dropped.
pub open spec fn still_live(pending: Seq<GroupInfo>, es: Seq<Entry>) -> Seq<GroupInfo> {
    pending.filter(|g: GroupInfo| es.contains((g.sequence, Some(g))))
}

/// The outcome of a poll of `state` by the consumer `before`, giving `after`
/// and `r`.
pub open spec fn poll_post(before: Subscriber, after: Subscriber, state: State, r: Next) -> bool {
    let len = state.entries().len();
    let seen = poll_seen(before, state);
    &&& after.order() == before.order()
    &&& after.index() == if before.index() >= state.pruned() + len {
        before.index()
    } else {
        state.pruned() + len
    }
    &&& r matches Next::Group(g) ==> state.entries().contains((g.sequence, Some(g)))
    &&& seen.len() > 0 ==> exists|j: int| 0 <= j < seen.len() && r == Next::Group(seen[j]) && after.pending() == seen.remove(j)
        && forall|k: int| 0 <= k < seen.len() ==> !better(#[trigger] seen[k], seen[j], before.order())
    &&& seen.len() == 0 ==> after.pending() == seen && r == match state.closed() {
        Ok(()) => Next::Pending,
        Err(ServeError::Closed) => Next::Ended,
        Err(e) => Next::Failed(e),
    }
}

/// What makes a consumer see each group at most once: `inserted` holds every
/// sequence number the producer has inserted, `delivered` those the consumer
/// has been handed. Live groups were inserted; pending groups were inserted,
/// are distinct and not yet handed out; live groups the consumer has not looked
/// at yet are neither handed out nor pending.
pub open spec fn once_view(state: State, sub: Subscriber, delivered: Set<u64>, inserted: Set<u64>) -> bool {
    let es = state.entries();
    once_log(es, state.pruned(), sub, delivered, inserted) && state.wf()
}

/// The facts of `once_view` about a log `src` at offset `pruned`.
pub open spec fn once_log(src: Seq<Entry>, pruned: nat, sub: Subscriber, delivered: Set<u64>, inserted: Set<u64>) -> bool {
    let pend = sub.pending();
    &&& sub.index() <= pruned + src.len()
    &&& delivered.subset_of(inserted)
    &&& forall|j: int| 0 <= j < src.len() && (#[trigger] src[j]).1 is Some ==> inserted.contains(src[j].0)
    &&& forall|k: int| 0 <= k < pend.len() ==> inserted.contains((#[trigger] pend[k]).sequence) && !delivered.contains(
        pend[k].sequence,
    )
    &&& forall|a: int, b: int| 0 <= a < b < pend.len() ==> pend[a].sequence != pend[b].sequence
    &&& forall|j: int|
        0 <= j < src.len() && pruned + j >= sub.index() && (#[trigger] src[j]).1 is Some ==> !delivered.contains(src[j].0)
            && forall|k: int| 0 <= k < pend.len() ==> (#[trigger] pend[k]).sequence != src[j].0
}

/// A consumer sees only groups the producer inserted, and never the same one
/// twice: a poll hands out a group not handed out before, and the facts hold
/// for the next poll.
pub proof fn lemma_poll_once(state: State, before: Subscriber, after: Subscriber, r: Next, delivered: Set<u64>, inserted: Set<u64>)
    requires
        once_view(state, before, delivered, inserted),
        poll_post(before, after, state, r),
    ensures
        r matches Next::Group(g) ==> inserted.contains(g.sequence) && !delivered.contains(g.sequence) && once_view(
            state,
            after,
            delivered.insert(g.sequence),
            inserted,
        ),
        !(r is Group) ==> once_view(state, after, delivered, inserted),
{
    let es = state.entries();
    let len = es.len();
    let start = resume_at(before.index(), state.pruned(), len);
    let tail = es.subrange(start as int, len as int);
    let seen = poll_seen(before, state);
    let pend0 = before.pending();
    lemma_still_live(pend0, es);
    let pend = still_live(pend0, es);
    assert forall|k: int| 0 <= k < pend.len() implies inserted.contains((#[trigger] pend[k]).sequence) && !delivered.contains(
        pend[k].sequence,
    ) && forall|j: int|
        0 <= j < es.len() && state.pruned() + j >= before.index() && es[j].1 is Some ==> es[j].0 != pend[k].sequence by {
        let m = choose|m: int| 0 <= m < pend0.len() && pend0[m] == pend[k];
        assert(inserted.contains(pend0[m].sequence));
        assert forall|j: int| 0 <= j < es.len() && state.pruned() + j >= before.index() && es[j].1 is Some implies es[j].0
            != pend[k].sequence by {
            assert((#[trigger] es[j]).1 is Some);
            assert(pend0[m].sequence != es[j].0);
        }
    }
    assert(unique_keys(tail)) by {
        assert forall|a: int, b: int| 0 <= a < b < tail.len() implies tail[a].0 != tail[b].0 by {
            assert(tail[a] == es[start + a]);
            assert(tail[b] == es[start + b]);
        }
    }
    assert forall|j: int| 0 <= j < tail.len() implies match (#[trigger] tail[j]).1 {
        Some(g) => g.sequence == tail[j].0,
        None => true,
    } by {
        assert(tail[j] == es[start + j]);
    }
    lemma_live_from(tail);
    lemma_live_distinct(tail);
    let lv = live(tail);
    assert forall|k: int| 0 <= k < seen.len() implies inserted.contains((#[trigger] seen[k]).sequence) && !delivered.contains(
        seen[k].sequence,
    ) && (k >= pend.len() ==> forall|m: int| 0 <= m < pend.len() ==> (#[trigger] pend[m]).sequence != seen[k].sequence) by {
        if k >= pend.len() {
            let kk = k - pend.len();
            assert(seen[k] == lv[kk]);
            let j = choose|j: int| 0 <= j < tail.len() && (#[trigger] tail[j]).1 == Some(lv[kk]);
            assert(tail[j] == es[start + j]);
            assert(state.pruned() + (start + j) >= before.index());
            assert(es[start + j].1 is Some);
            assert forall|m: int| 0 <= m < pend.len() implies (#[trigger] pend[m]).sequence != seen[k].sequence by {
                assert(es[start + j].0 != pend[m].sequence);
            }
        } else {
            assert(seen[k] == pend[k]);
        }
    }
    assert forall|a: int, b: int| 0 <= a < b < seen.len() implies seen[a].sequence != seen[b].sequence by {
        if b < pend.len() {
            assert(seen[a] == pend[a] && seen[b] == pend[b]);
        } else if a >= pend.len() {
            assert(seen[a] == lv[a - pend.len()] && seen[b] == lv[b - pend.len()]);
        } else {
            assert(seen[a] == pend[a]);
            assert(pend[a].sequence != seen[b].sequence);
        }
    }
    assert(after.index() == state.pruned() + len);
    if seen.len() > 0 {
        let j = choose|j: int| 0 <= j < seen.len() && r == Next::Group(seen[j]) && after.pending() == seen.remove(j)
            && forall|k: int| 0 <= k < seen.len() ==> !better(#[trigger] seen[k], seen[j], before.order());
        let g = seen[j];
        let rest = seen.remove(j);
        let d2 = delivered.insert(g.sequence);
        assert forall|k: int| 0 <= k < rest.len() implies inserted.contains((#[trigger] rest[k]).sequence) && !d2.contains(
            rest[k].sequence,
        ) by {
            let m = if k < j { k } else { k + 1 };
            assert(rest[k] == seen[m]);
            if m < j {
                assert(seen[m].sequence != seen[j].sequence);
            } else {
                assert(seen[j].sequence != seen[m].sequence);
            }
        }
        assert forall|a: int, b: int| 0 <= a < b < rest.len() implies rest[a].sequence != rest[b].sequence by {
            let ma = if a < j { a } else { a + 1 };
            let mb = if b < j { b } else { b + 1 };
            assert(rest[a] == seen[ma] && rest[b] == seen[mb]);
        }
    }
}

proof fn lemma_once_after_expiry(src: Seq<Entry>, dead: Set<u64>, pruned: nat, after: State, sub: Subscriber, delivered: Set<u64>, inserted: Set<u64>)
    requires
        once_log(src, pruned, sub, delivered, inserted),
        after.wf(),
        after.entries() == drop_expired_front(mark_expired(src, dead)),
        after.pruned() + after.entries().len() == pruned + src.len(),
    ensures
        once_view(after, sub, delivered, inserted),
{
    let marked = mark_expired(src, dead);
    lemma_drop_expired_front(marked);
    let k = choose|k: int| 0 <= k <= marked.len() && drop_expired_front(marked) == marked.subrange(k, marked.len() as int)
        && forall|j: int| 0 <= j < k ==> (#[trigger] marked[j]).1 is None;
    let es = after.entries();
    assert(after.pruned() == pruned + k);
    assert forall|j: int| 0 <= j < es.len() && (#[trigger] es[j]).1 is Some implies src[k + j].1 == es[j].1 && src[k + j].0 == es[j].0 by {
        assert(es[j] == marked[k + j]);
    }
    assert forall|j: int| 0 <= j < es.len() && (#[trigger] es[j]).1 is Some implies inserted.contains(es[j].0) by {
        assert(src[k + j].1 is Some);
    }
    assert forall|j: int|
        0 <= j < es.len() && after.pruned() + j >= sub.index() && (#[trigger] es[j]).1 is Some implies !delivered.contains(es[j].0)
            && forall|m: int| 0 <= m < sub.pending().len() ==> (#[trigger] sub.pending()[m]).sequence != es[j].0 by {
        assert(src[k + j].1 is Some);
        assert(pruned + (k + j) >= sub.index());
    }
}

/// Expiry keeps each group seen at most once.
pub proof fn lemma_expire_once(before: State, after: State, sub: Subscriber, now: u64, delivered: Set<u64>, inserted: Set<u64>)
    requires
        once_view(before, sub, delivered, inserted),
        after.wf(),
        after.entries() == drop_expired_front(mark_expired(before.entries(), due(before.deadlines(), now))),
        after.pruned() + after.entries().len() == before.pruned() + before.entries().len(),
    ensures
        once_view(after, sub, delivered, inserted),
{
    lemma_once_after_expiry(before.entries(), due(before.deadlines(), now), before.pruned(), after, sub, delivered, inserted);
}

/// A producer that never reuses a sequence number keeps each group seen at
/// most once.
pub proof fn lemma_insert_once(before: State, after: State, group: GroupInfo, now: u64, sub: Subscriber, delivered: Set<u64>, inserted: Set<u64>)
    requires
        once_view(before, sub, delivered, inserted),
        after.wf(),
        insert_post(before, after, group, now, Ok(())),
        !inserted.contains(group.sequence),
    ensures
        once_view(after, sub, delivered, inserted.insert(group.sequence)),
{
    let src = before.entries().push((group.sequence, Some(group)));
    let dl = match group.expires {
        Some(ttl) => before.deadlines().push((deadline(now, ttl), group.sequence)),
        None => before.deadlines(),
    };
    let n = before.entries().len();
    let ins = inserted.insert(group.sequence);
    assert forall|j: int| 0 <= j < src.len() && (#[trigger] src[j]).1 is Some implies ins.contains(src[j].0) by {
        if j < n {
            assert(src[j] == before.entries()[j]);
        }
    }
    assert forall|j: int|
        0 <= j < src.len() && before.pruned() + j >= sub.index() && (#[trigger] src[j]).1 is Some implies !delivered.contains(src[j].0)
            && forall|k: int| 0 <= k < sub.pending().len() ==> (#[trigger] sub.pending()[k]).sequence != src[j].0 by {
        if j < n {
            assert(src[j] == before.entries()[j]);
        } else {
            assert forall|k: int| 0 <= k < sub.pending().len() implies (#[trigger] sub.pending()[k]).sequence != src[j].0 by {
                assert(inserted.contains(sub.pending()[k].sequence));
            }
        }
    }
    lemma_once_after_expiry(src, due(dl, now), before.pruned(), after, sub, delivered, ins);
}

/// A new track and a new consumer start with nothing inserted or handed out.
pub proof fn lemma_once_start(state: State, sub: Subscriber)
    requires
        state.wf(),
        state.entries().len() == 0,
        sub.index() == 0,
        sub.pending().len() == 0,
    ensures
        once_view(state, sub, Set::empty(), Set::empty()),
{
}

/// Expiry as a consumer sees it: once the track has expired at `now`, no poll
/// hands out a group whose deadline is not after `now`, even one the consumer
/// had seen before.
pub proof fn lemma_expired_never_handed_out(
    log: Seq<Entry>,
    deadlines: Seq<(u64, u64)>,
    now: u64,
    state: State,
    before: Subscriber,
    after: Subscriber,
    g: GroupInfo,
)
    requires
        unique_keys(log),
        state.entries() == drop_expired_front(mark_expired(log, due(deadlines, now))),
        poll_post(before, after, state, Next::Group(g)),
    ensures
        !due(deadlines, now).contains(g.sequence),
{
    lemma_expiry_visibility(log, deadlines, now);
    let es = state.entries();
    let i = choose|i: int| 0 <= i < es.len() && es[i] == (g.sequence, Some(g));
    assert(es[i].1 is Some);
}

/// A consumer's cursor on a track: the absolute log position of the next
/// entry to look at, and the groups seen but not handed out yet.
pub struct Subscriber {
    index: usize,
    pending: Vec<GroupInfo>,
    order: GroupOrder,
}

impl Subscriber {
    pub closed spec fn index(&self) -> nat {
        self.index as nat
    }

    pub closed spec fn pending(&self) -> Seq<GroupInfo> {
        self.pending@
    }

    pub closed spec fn order(&self) -> GroupOrder {
        self.order
    }

    pub fn new(order: GroupOrder) -> (r: Subscriber)
        ensures
            r.index() == 0,
            r.pending() == Seq::<GroupInfo>::empty(),
            r.order() == order,
    {
        Subscriber { index: 0, pending: Vec::new(), order }
    }

    /// Takes the live groups added to the log since the last poll, then hands
    /// out the most urgent group not handed out yet. With none left, reports
    /// how the track ended, or that there is nothing yet.
    pub fn next_segment(&mut self, state: &State) -> (r: Next)
        requires
            state.wf(),
        ensures
            poll_post(*old(self), *final(self), *state, r),
    {
        let ghost es0 = state.entries();
        let ghost pred = |g: GroupInfo| es0.contains((g.sequence, Some(g)));
        let ghost pend0 = self.pending@;
        let mut kept: Vec<GroupInfo> = Vec::new();
        let mut m: usize = 0;
        assert(pend0.subrange(0, 0).filter(pred) =~= Seq::<GroupInfo>::empty()) by {
            reveal(Seq::filter);
        }
        while m < self.pending.len()
            invariant
                m <= self.pending@.len(),
                self.pending@ == pend0,
                es0 == state.entries(),
                pred == (|g: GroupInfo| es0.contains((g.sequence, Some(g)))),
                state.wf(),
                kept@ == pend0.subrange(0, m as int).filter(pred),
            decreases self.pending.len() - m,
        {
            let g = self.pending[m];
            assert(pend0.subrange(0, m + 1).drop_last() =~= pend0.subrange(0, m as int));
            assert(pend0.subrange(0, m + 1).last() == g);
            proof {
                reveal(Seq::filter);
            }
            let live_now = match log_get(&state.lookup, g.sequence) {
                Some(Some(v)) => v == g,
                _ => false,
            };
            proof {
                if es0.contains((g.sequence, Some(g))) {
                    let i = choose|i: int| 0 <= i < es0.len() && es0[i] == (g.sequence, Some(g));
                    assert(es0[i].0 == g.sequence);
                }
                if live_now {
                    assert(has_key(es0, g.sequence));
                    let i = choose|i: int| 0 <= i < es0.len() && (#[trigger] es0[i]).0 == g.sequence;
                    assert(es0[i] == (g.sequence, Some(g)));
                }
                assert(live_now == pred(g));
            }
            if live_now {
                kept.push(g);
            }
            m = m + 1;
        }
        assert(pend0.subrange(0, m as int) =~= pend0);
        self.pending = kept;
        let len = log_len(&state.lookup);
        let adj: usize = if self.index >= state.pruned { self.index - state.pruned } else { 0 };
        let mut i: usize = if adj > len { len } else { adj };
        let ghost start = resume_at(self.index as nat, state.pruned as nat, len as nat);
        let ghost base = self.pending@;
        let ghost ents = state.entries();
        assert(ents.subrange(start as int, start as int) =~= Seq::<Entry>::empty());
        while i < len
            invariant
                len == ents.len(),
                ents == state.entries(),
                base == still_live(old(self).pending@, state.entries()),
                self.index == old(self).index,
                start == resume_at(old(self).index as nat, state.pruned as nat, len as nat),
                start <= i <= len,
                self.pending@ == base + live(ents.subrange(start as int, i as int)),
                self.order == old(self).order,
            decreases len - i,
        {
            let ghost prev = ents.subrange(start as int, i as int);
            let ghost next = ents.subrange(start as int, i + 1);
            assert(next.drop_last() =~= prev);
            assert(next.last() == ents[i as int]);
            match log_get_index(&state.lookup, i) {
                Some((_, Some(g))) => {
                    assert(ents[i as int].1 == Some(g));
                    assert(live(next) == live(prev) + seq![g]);
                    self.pending.push(g);
                    assert(self.pending@ =~= base + live(ents.subrange(start as int, i + 1)));
                },
                _ => {
                    assert(ents[i as int].1 is None);
                    assert(live(next) == live(prev));
                    assert(self.pending@ =~= base + live(ents.subrange(start as int, i + 1)));
                },
            }
            i = i + 1;
        }
        proof {
            if start == len as nat {
                assert(ents.subrange(start as int, len as int) =~= Seq::<Entry>::empty());
                assert(self.pending@ =~= base + live(ents.subrange(start as int, len as int)));
            }
        }
        let ghost seen = self.pending@;
        assert(seen == still_live(old(self).pending@, state.entries()) + live(ents.subrange(start as int, len as int)));
        self.index = if adj > len { self.index } else { state.pruned + i };
        if self.pending.len() == 0 {
            return match state.closed {
                Ok(()) => Next::Pending,
                Err(ServeError::Closed) => Next::Ended,
                Err(e) => Next::Failed(e),
            };
        }
        let mut best: usize = 0;
        let mut k: usize = 1;
        while k < self.pending.len()
            invariant
                1 <= k <= self.pending@.len(),
                best < k,
                forall|m: int| 0 <= m < k ==> !better(#[trigger] self.pending@[m], self.pending@[best as int], self.order),
            decreases self.pending@.len() - k,
        {
            if is_better(&self.pending[k], &self.pending[best], self.order) {
                best = k;
            }
            k = k + 1;
        }
        let g = self.pending.remove(best);
        assert(seen[best as int] == g);
        assert(self.pending@ == seen.remove(best as int));
        proof {
            let fp = still_live(old(self).pending@, state.entries());
            let tail = ents.subrange(start as int, len as int);
            lemma_still_live(old(self).pending@, state.entries());
            lemma_live_from(tail);
            if (best as int) < fp.len() {
                assert(g == fp[best as int]);
            } else {
                let k = best - fp.len();
                assert(g == live(tail)[k]);
                let j = choose|j: int| 0 <= j < tail.len() && (#[trigger] tail[j]).1 == Some(live(tail)[k]);
                assert(tail[j] == ents[start + j]);
                assert(ents[start + j] == (g.sequence, Some(g)));
            }
        }
        Next::Group(g)
    }
}

/// The name of a track.
pub struct Info {
    pub name: String,
}

/// The producing side of a track: its state and its name.
pub struct Publisher {
    state: State,
    info: Info,
}

/// Creates a track named `name`: its producer, and a first consumer that takes
/// groups latest first.
pub fn new(name: &str) -> (r: (Publisher, Subscriber))
    ensures
        r.0.state().wf(),
        r.0.state().entries() == Seq::<Entry>::empty(),
        r.0.state().pruned() == 0,
        r.0.state().closed() == Ok::<(), ServeError>(()),
        r.0.state().deadlines() == Seq::<(u64, u64)>::empty(),
        r.0.state().consumers() == 1,
        r.0.name() == name@,
        r.1.index() == 0,
        r.1.pending() == Seq::<GroupInfo>::empty(),
        r.1.order() == GroupOrder::Desc,
{
    let mut state = State::new();
    let subscriber = state.subscribe(GroupOrder::Desc);
    (Publisher { state, info: Info { name: name.to_owned() } }, subscriber)
}

impl Publisher {
    pub closed spec fn state(&self) -> State {
        self.state
    }

    pub closed spec fn name(&self) -> Seq<char> {
        self.info.name@
    }

    /// The track's state, for its consumers to poll.
    pub fn track_state(&self) -> (r: &State)
        ensures
            *r == self.state(),
    {
        &self.state
    }

    pub fn info(&self) -> (r: &Info)
        ensures
            r.name@ == self.name(),
    {
        &self.info
    }

    /// Registers another consumer of the track.
    pub fn subscribe(&mut self, order: GroupOrder) -> (r: Subscriber)
        requires
            old(self).state().wf(),
            old(self).state().consumers() < usize::MAX,
        ensures
            final(self).state().wf(),
            final(self).name() == old(self).name(),
            final(self).state().entries() == old(self).state().entries(),
            final(self).state().pruned() == old(self).state().pruned(),
            final(self).state().closed() == old(self).state().closed(),
            final(self).state().consumers() == old(self).state().consumers() + 1,
            r.index() == 0,
            r.pending() == Seq::<GroupInfo>::empty(),
            r.order() == order,
    {
        self.state.subscribe(order)
    }

    /// A consumer lets go; after the last one the track is closed.
    pub fn unsubscribe(&mut self, consumer: Subscriber)
        requires
            old(self).state().wf(),
            old(self).state().consumers() > 0,
        ensures
            final(self).state().wf(),
            final(self).name() == old(self).name(),
            unsubscribe_post(old(self).state(), final(self).state()),
    {
        self.state.unsubscribe(consumer)
    }

    /// How the track ended, once it did.
    pub fn closed(&self) -> (r: Result<(), ServeError>)
        ensures
            r == self.state().closed(),
    {
        self.state.closed_result()
    }

    /// Inserts a group read from elsewhere.
    pub fn insert_segment(&mut self, segment: GroupInfo, now: u64) -> (r: Result<(), ServeError>)
        requires
            old(self).state().wf(),
            old(self).state().pruned() + old(self).state().entries().len() < usize::MAX,
        ensures
            final(self).state().wf(),
            final(self).name() == old(self).name(),
            insert_post(old(self).state(), final(self).state(), segment, now, r),
    {
        self.state.insert(segment, now)
    }

    /// Inserts a new group and returns the writer for its frames.
    pub fn create_segment(&mut self, info: GroupInfo, now: u64) -> (r: Result<GroupWriter, ServeError>)
        requires
            old(self).state().wf(),
            old(self).state().pruned() + old(self).state().entries().len() < usize::MAX,
        ensures
            final(self).state().wf(),
            final(self).name() == old(self).name(),
            insert_post(
                old(self).state(),
                final(self).state(),
                info,
                now,
                match r {
                    Ok(_) => Ok(()),
                    Err(e) => Err(e),
                },
            ),
            r matches Ok(w) ==> w.info() == info && w.frames() == Seq::<Seq<u8>>::empty() && w.done() is None,
    {
        self.state.insert(info, now)?;
        Ok(GroupWriter::new(info))
    }

    /// Closes the track with `err`; the first error set stays.
    pub fn close(&mut self, err: ServeError) -> (r: Result<(), ServeError>)
        requires
            old(self).state().wf(),
        ensures
            final(self).state().wf(),
            final(self).name() == old(self).name(),
            final(self).state().entries() == old(self).state().entries(),
            final(self).state().pruned() == old(self).state().pruned(),
            old(self).state().closed() is Err ==> r == old(self).state().closed() && final(self).state().closed() == old(self).state().closed(),
            old(self).state().closed() is Ok ==> r == Ok::<(), ServeError>(()) && final(self).state().closed() == Err::<(), ServeError>(err),
    {
        self.state.close(err)
    }
}

} // verus!
