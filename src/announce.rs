use vstd::prelude::*;

use crate::error::ServeError;
use crate::listings::{lemma_names_push, lemma_names_remove, names};

verus! {

/// A change to the set of announced broadcasts.
#[derive(Debug, PartialEq, Eq)]
pub enum Announcement {
    Announce(String),
    Unannounce(String),
}

/// A change as (announced?, path).
pub open spec fn announcement_view(a: Announcement) -> (bool, Seq<char>) {
    match a {
        Announcement::Announce(p) => (true, p@),
        Announcement::Unannounce(p) => (false, p@),
    }
}

/// The broadcasts active after applying the changes of `log` in order.
pub open spec fn active_of(log: Seq<(bool, Seq<char>)>) -> Set<Seq<char>>
    decreases log.len(),
{
    if log.len() == 0 {
        Set::empty()
    } else if log.last().0 {
        active_of(log.drop_last()).insert(log.last().1)
    } else {
        active_of(log.drop_last()).remove(log.last().1)
    }
}

/// The announcing side: the log of changes and the broadcasts now active.
pub struct AnnouncedProducer {
    log: Vec<Announcement>,
    active: Vec<String>,
}

impl AnnouncedProducer {
    pub closed spec fn log(&self) -> Seq<(bool, Seq<char>)> {
        self.log@.map_values(|a: Announcement| announcement_view(a))
    }

    /// The broadcasts now active.
    pub closed spec fn active(&self) -> Set<Seq<char>> {
        names(self.active@)
    }

    /// Each active broadcast appears once, and the active set is what the log
    /// replays to.
    pub closed spec fn wf(&self) -> bool {
        &&& forall|a: int, b: int| 0 <= a < b < self.active@.len() ==> self.active@[a]@ != self.active@[b]@
        &&& names(self.active@) == active_of(self.log())
    }

    pub fn new() -> (r: AnnouncedProducer)
        ensures
            r.wf(),
            r.log() == Seq::<(bool, Seq<char>)>::empty(),
            r.active() == Set::<Seq<char>>::empty(),
    {
        let r = AnnouncedProducer { log: Vec::new(), active: Vec::new() };
        assert(r.log() =~= Seq::<(bool, Seq<char>)>::empty());
        assert(names(r.active@) =~= Set::<Seq<char>>::empty());
        r
    }

    fn find(&self, path: &String) -> (r: Option<usize>)
        ensures
            match r {
                Some(i) => i < self.active@.len() && self.active@[i as int]@ == path@,
                None => forall|i: int| 0 <= i < self.active@.len() ==> self.active@[i]@ != path@,
            },
    {
        let mut i: usize = 0;
        while i < self.active.len()
            invariant
                i <= self.active@.len(),
                forall|j: int| 0 <= j < i ==> self.active@[j]@ != path@,
            decreases self.active.len() - i,
        {
            if self.active[i] == *path {
                return Some(i);
            }
            i = i + 1;
        }
        None
    }

    /// Announces `path`; one already active is a `Duplicate`.
    pub fn announce(&mut self, path: String) -> (r: Result<(), ServeError>)
        requires
            old(self).wf(),
        ensures
            final(self).wf(),
            old(self).active().contains(path@) ==> r == Err::<(), ServeError>(ServeError::Duplicate)
                && final(self).log() == old(self).log() && final(self).active() == old(self).active(),
            !old(self).active().contains(path@) ==> r == Ok::<(), ServeError>(()) && final(self).log() == old(self).log().push(
                (true, path@),
            ) && final(self).active() == old(self).active().insert(path@),
    {
        let ghost vs = self.active@.map_values(|x: String| x@);
        match self.find(&path) {
            Some(i) => {
                assert(vs[i as int] == path@);
                Err(ServeError::Duplicate)
            },
            None => {
                proof {
                    if names(self.active@).contains(path@) {
                        let k = choose|k: int| 0 <= k < vs.len() && #[trigger] vs[k] == path@;
                        assert(self.active@[k]@ == path@);
                    }
                    lemma_names_push(self.active@, path);
                }
                let ghost before_log = self.log@;
                self.active.push(path.clone());
                self.log.push(Announcement::Announce(path));
                proof {
                    let f = |a: Announcement| announcement_view(a);
                    assert(self.log() =~= before_log.map_values(f).push(self.log()[before_log.len() as int]));
                    assert(self.log().drop_last() =~= before_log.map_values(f));
                }
                Ok(())
            },
        }
    }

    /// Withdraws `path`; one not active is `NotFound`.
    pub fn unannounce(&mut self, path: &String) -> (r: Result<(), ServeError>)
        requires
            old(self).wf(),
        ensures
            final(self).wf(),
            !old(self).active().contains(path@) ==> r == Err::<(), ServeError>(ServeError::NotFound)
                && final(self).log() == old(self).log() && final(self).active() == old(self).active(),
            old(self).active().contains(path@) ==> r == Ok::<(), ServeError>(()) && final(self).log() == old(self).log().push(
                (false, path@),
            ) && final(self).active() == old(self).active().remove(path@),
    {
        let ghost vs = self.active@.map_values(|x: String| x@);
        match self.find(path) {
            None => {
                proof {
                    if names(self.active@).contains(path@) {
                        let k = choose|k: int| 0 <= k < vs.len() && #[trigger] vs[k] == path@;
                        assert(self.active@[k]@ == path@);
                    }
                }
                Err(ServeError::NotFound)
            },
            Some(i) => {
                proof {
                    assert(vs[i as int] == path@);
                    lemma_names_remove(self.active@, i as int);
                }
                let ghost before = self.active@;
                let ghost before_log = self.log@;
                self.active.remove(i);
                self.log.push(Announcement::Unannounce(path.clone()));
                proof {
                    let f = |a: Announcement| announcement_view(a);
                    assert(self.log().drop_last() =~= before_log.map_values(f));
                    assert forall|a: int, b: int| 0 <= a < b < self.active@.len() implies self.active@[a]@ != self.active@[b]@ by {
                        let a0 = if a < i { a } else { a + 1 };
                        let b0 = if b < i { b } else { b + 1 };
                        assert(self.active@[a] == before[a0]);
                        assert(self.active@[b] == before[b0]);
                    }
                }
                Ok(())
            },
        }
    }

    /// The number of changes logged so far.
    pub fn len(&self) -> (r: usize)
        ensures
            r == self.log().len(),
    {
        self.log.len()
    }
}

/// A late joiner: replays the log from its start to learn which broadcasts
/// are active.
pub fn reconstruct(producer: &AnnouncedProducer) -> (r: Vec<String>)
    ensures
        names(r@) == active_of(producer.log()),
        forall|a: int, b: int| 0 <= a < b < r@.len() ==> r@[a]@ != r@[b]@,
{
    let ghost log = producer.log();
    let mut out: Vec<String> = Vec::new();
    let mut i: usize = 0;
    assert(names(out@) =~= Set::<Seq<char>>::empty());
    assert(log.subrange(0, 0) =~= Seq::<(bool, Seq<char>)>::empty());
    while i < producer.log.len()
        invariant
            i <= producer.log@.len(),
            log == producer.log(),
            names(out@) == active_of(log.subrange(0, i as int)),
            forall|a: int, b: int| 0 <= a < b < out@.len() ==> out@[a]@ != out@[b]@,
        decreases producer.log.len() - i,
    {
        let ghost prefix = log.subrange(0, i + 1);
        assert(prefix.drop_last() =~= log.subrange(0, i as int));
        assert(prefix.last() == announcement_view(producer.log@[i as int]));
        let ghost vs = out@.map_values(|x: String| x@);
        match &producer.log[i] {
            Announcement::Announce(p) => {
                let mut found = false;
                let mut k: usize = 0;
                while k < out.len()
                    invariant
                        k <= out@.len(),
                        found ==> names(out@).contains(p@),
                        !found ==> forall|j: int| 0 <= j < k ==> out@[j]@ != p@,
                    decreases out.len() - k,
                {
                    if out[k] == *p {
                        assert(out@.map_values(|x: String| x@)[k as int] == p@);
                        found = true;
                    }
                    k = k + 1;
                }
                if !found {
                    proof {
                        lemma_names_push(out@, *p);
                    }
                    out.push(p.clone());
                } else {
                    assert(names(out@).insert(p@) =~= names(out@));
                }
            },
            Announcement::Unannounce(p) => {
                let mut k: usize = 0;
                let mut at: Option<usize> = None;
                while k < out.len()
                    invariant
                        k <= out@.len(),
                        at matches Some(j) ==> j < out@.len() && out@[j as int]@ == p@,
                        at is None ==> forall|j: int| 0 <= j < k ==> out@[j]@ != p@,
                    decreases out.len() - k,
                {
                    if at.is_none() && out[k] == *p {
                        at = Some(k);
                    }
                    k = k + 1;
                }
                match at {
                    Some(j) => {
                        let ghost before = out@;
                        proof {
                            lemma_names_remove(out@, j as int);
                        }
                        out.remove(j);
                        proof {
                            assert forall|a: int, b: int| 0 <= a < b < out@.len() implies out@[a]@ != out@[b]@ by {
                                let a0 = if a < j { a } else { a + 1 };
                                let b0 = if b < j { b } else { b + 1 };
                                assert(out@[a] == before[a0]);
                                assert(out@[b] == before[b0]);
                            }
                        }
                    },
                    None => {
                        proof {
                            if names(out@).contains(p@) {
                                let vs2 = out@.map_values(|x: String| x@);
                                let k2 = choose|k2: int| 0 <= k2 < vs2.len() && #[trigger] vs2[k2] == p@;
                                assert(out@[k2]@ == p@);
                            }
                            assert(names(out@).remove(p@) =~= names(out@));
                        }
                    },
                }
            },
        }
        i = i + 1;
    }
    assert(log.subrange(0, i as int) =~= log);
    out
}

/// Replaying the log gives the producer's active broadcasts: a late joiner
/// learns exactly the current state.
pub proof fn lemma_replay_matches_active(producer: AnnouncedProducer)
    requires
        producer.wf(),
    ensures
        active_of(producer.log()) == producer.active(),
{
}

} // verus!
