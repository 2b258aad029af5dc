use vstd::prelude::*;

use crate::error::ServeError;

verus! {

/// Whether some pair of `s` has the path `k`.
pub open spec fn has_path(s: Seq<(Seq<char>, u64)>, k: Seq<char>) -> bool {
    exists|i: int| 0 <= i < s.len() && (#[trigger] s[i]).0 == k
}

/// The broadcasts published by locally connected clients: each path with the
/// handle of its producer.
pub struct Locals {
    entries: Vec<(String, u64)>,
}

impl Locals {
    pub closed spec fn view(&self) -> Seq<(Seq<char>, u64)> {
        self.entries@.map_values(|e: (String, u64)| (e.0@, e.1))
    }

    pub open spec fn wf(&self) -> bool {
        forall|i: int, j: int| 0 <= i < j < self@.len() ==> self@[i].0 != self@[j].0
    }

    pub fn new() -> (r: Locals)
        ensures
            r.wf(),
            r@ == Seq::<(Seq<char>, u64)>::empty(),
    {
        let r = Locals { entries: Vec::new() };
        assert(r@ =~= Seq::<(Seq<char>, u64)>::empty());
        r
    }

    fn position(&self, path: &String) -> (r: Option<usize>)
        ensures
            match r {
                Some(i) => i < self@.len() && self@[i as int].0 == path@,
                None => !has_path(self@, path@),
            },
    {
        let mut i: usize = 0;
        while i < self.entries.len()
            invariant
                i <= self.entries@.len(),
                forall|j: int| 0 <= j < i ==> self@[j].0 != path@,
            decreases self.entries.len() - i,
        {
            if self.entries[i].0 == *path {
                return Some(i);
            }
            i = i + 1;
        }
        None
    }

    /// Publishes `path` as served by the producer `handle`; a path already
    /// published is a `Duplicate`.
    pub fn announce(&mut self, path: String, handle: u64) -> (r: Result<(), ServeError>)
        requires
            old(self).wf(),
        ensures
            final(self).wf(),
            has_path(old(self)@, path@) ==> r == Err::<(), ServeError>(ServeError::Duplicate) && final(self)@ == old(self)@,
            !has_path(old(self)@, path@) ==> r == Ok::<(), ServeError>(()) && final(self)@ == old(self)@.push((path@, handle)),
    {
        if self.position(&path).is_some() {
            return Err(ServeError::Duplicate);
        }
        let ghost before = self@;
        self.entries.push((path, handle));
        assert(self@ =~= before.push((path@, handle)));
        Ok(())
    }

    /// Withdraws `path`; one that is not published is `NotFound`.
    pub fn unannounce(&mut self, path: &String) -> (r: Result<(), ServeError>)
        requires
            old(self).wf(),
        ensures
            final(self).wf(),
            !has_path(old(self)@, path@) ==> r == Err::<(), ServeError>(ServeError::NotFound) && final(self)@ == old(self)@,
            has_path(old(self)@, path@) ==> r == Ok::<(), ServeError>(()) && !has_path(final(self)@, path@) && exists|i: int|
                0 <= i < old(self)@.len() && old(self)@[i].0 == path@ && final(self)@ == old(self)@.remove(i),
    {
        match self.position(path) {
            None => Err(ServeError::NotFound),
            Some(i) => {
                let ghost before = self@;
                self.entries.remove(i);
                assert(self@ =~= before.remove(i as int));
                assert forall|j: int| 0 <= j < self@.len() implies self@[j].0 != path@ by {
                    if j < i {
                        assert(before[j].0 != before[i as int].0);
                    } else {
                        assert(before[j + 1].0 != before[i as int].0);
                    }
                }
                Ok(())
            },
        }
    }

    /// The producer serving `path`, if it is published here.
    pub fn route(&self, path: &String) -> (r: Option<u64>)
        requires
            self.wf(),
        ensures
            r is None <==> !has_path(self@, path@),
            r matches Some(h) ==> self@.contains((path@, h)),
    {
        match self.position(path) {
            Some(i) => Some(self.entries[i].1),
            None => None,
        }
    }
}

/// One peer's session as the relay sees it: the broadcasts the peer announced,
/// each published in the relay's locals until it closes.
pub struct Connection {
    announced: Vec<String>,
}

impl Connection {
    /// The broadcasts announced by the peer and still open.
    pub closed spec fn view(&self) -> Seq<Seq<char>> {
        self.announced@.map_values(|s: String| s@)
    }

    pub fn new() -> (r: Connection)
        ensures
            r@ == Seq::<Seq<char>>::empty(),
    {
        let r = Connection { announced: Vec::new() };
        assert(r@ =~= Seq::<Seq<char>>::empty());
        r
    }

    /// The peer announced `path`, served by `handle`: it becomes routable.
    pub fn announced(&mut self, locals: &mut Locals, path: String, handle: u64) -> (r: Result<(), ServeError>)
        requires
            old(locals).wf(),
        ensures
            final(locals).wf(),
            has_path(old(locals)@, path@) ==> r == Err::<(), ServeError>(ServeError::Duplicate) && final(locals)@ == old(locals)@
                && final(self)@ == old(self)@,
            !has_path(old(locals)@, path@) ==> r == Ok::<(), ServeError>(()) && final(locals)@ == old(locals)@.push((path@, handle))
                && final(self)@ == old(self)@.push(path@),
    {
        let ghost before = self@;
        let copy = path.clone();
        match locals.announce(path, handle) {
            Err(e) => Err(e),
            Ok(()) => {
                self.announced.push(copy);
                assert(self@ =~= before.push(copy@));
                Ok(())
            },
        }
    }

    /// The broadcast `path` announced by the peer closed: it is no longer
    /// routable.
    pub fn closed(&mut self, locals: &mut Locals, path: &String) -> (r: Result<(), ServeError>)
        requires
            old(locals).wf(),
        ensures
            final(locals).wf(),
            !has_path(old(locals)@, path@) ==> r == Err::<(), ServeError>(ServeError::NotFound) && final(locals)@ == old(locals)@,
            has_path(old(locals)@, path@) ==> r == Ok::<(), ServeError>(()) && !has_path(final(locals)@, path@),
            final(self)@ == old(self)@.filter(|p: Seq<char>| p != path@),
    {
        let ghost v = self@;
        let ghost keep = |p: Seq<char>| p != path@;
        let mut kept: Vec<String> = Vec::new();
        let mut i: usize = 0;
        assert(v.subrange(0, 0).filter(keep) =~= Seq::<Seq<char>>::empty()) by {
            reveal(Seq::filter);
        }
        while i < self.announced.len()
            invariant
                i <= self.announced@.len(),
                v == self@,
                keep == (|p: Seq<char>| p != path@),
                kept@.map_values(|s: String| s@) == v.subrange(0, i as int).filter(keep),
            decreases self.announced.len() - i,
        {
            let ghost before = kept@;
            assert(v.subrange(0, i + 1).drop_last() =~= v.subrange(0, i as int));
            assert(v.subrange(0, i + 1).last() == self.announced@[i as int]@);
            proof {
                reveal(Seq::filter);
            }
            if self.announced[i] != *path {
                kept.push(self.announced[i].clone());
                assert(keep(v[i as int]));
                assert(v.subrange(0, i + 1).filter(keep) == v.subrange(0, i as int).filter(keep).push(v[i as int]));
                assert(kept@.map_values(|s: String| s@) =~= before.map_values(|s: String| s@).push(self.announced@[i as int]@));
            } else {
                assert(!keep(v[i as int]));
                assert(v.subrange(0, i + 1).filter(keep) == v.subrange(0, i as int).filter(keep));
            }
            i = i + 1;
        }
        assert(v.subrange(0, i as int) =~= v);
        self.announced = kept;
        locals.unannounce(path)
    }
}

/// A peer origin and the broadcasts it announced.
pub struct Remote {
    pub origin: String,
    pub broadcasts: Vec<String>,
}

pub open spec fn announces(r: Remote, path: Seq<char>) -> bool {
    exists|i: int| 0 <= i < r.broadcasts@.len() && (#[trigger] r.broadcasts@[i])@ == path
}

/// Where a subscription is served from.
#[derive(Debug, Clone, Copy, PartialEq, Eq, Structural)]
pub enum Route {
    /// The local producer with this handle.
    Local(u64),
    /// The remote origin at this position.
    Remote(usize),
}

fn remote_announces(r: &Remote, path: &String) -> (b: bool)
    ensures
        b == announces(*r, path@),
{
    let mut i: usize = 0;
    while i < r.broadcasts.len()
        invariant
            i <= r.broadcasts@.len(),
            forall|j: int| 0 <= j < i ==> r.broadcasts@[j]@ != path@,
        decreases r.broadcasts.len() - i,
    {
        if r.broadcasts[i] == *path {
            return true;
        }
        i = i + 1;
    }
    false
}

/// Resolves a subscription to `broadcast`: a local producer first, then the
/// first remote origin, in order, that announced it; otherwise
/// `UnknownBroadcast`.
pub fn route(locals: &Locals, remotes: &Vec<Remote>, broadcast: &String) -> (r: Result<Route, ServeError>)
    requires
        locals.wf(),
    ensures
        has_path(locals@, broadcast@) ==> (r matches Ok(Route::Local(h)) && locals@.contains((broadcast@, h))),
        !has_path(locals@, broadcast@) ==> match r {
            Ok(Route::Remote(i)) => i < remotes@.len() && announces(remotes@[i as int], broadcast@) && forall|j: int|
                0 <= j < i ==> !announces(#[trigger] remotes@[j], broadcast@),
            Ok(Route::Local(_)) => false,
            Err(e) => e == ServeError::UnknownBroadcast && forall|j: int| 0 <= j < remotes@.len() ==> !announces(#[trigger] remotes@[j], broadcast@),
        },
{
    let local = locals.route(broadcast);
    if let Some(h) = local {
        return Ok(Route::Local(h));
    }
    let mut i: usize = 0;
    while i < remotes.len()
        invariant
            i <= remotes@.len(),
            forall|j: int| 0 <= j < i ==> !announces(#[trigger] remotes@[j], broadcast@),
            !has_path(locals@, broadcast@),
        decreases remotes.len() - i,
    {
        if remote_announces(&remotes[i], broadcast) {
            return Ok(Route::Remote(i));
        }
        i = i + 1;
    }
    Err(ServeError::UnknownBroadcast)
}

} // verus!
