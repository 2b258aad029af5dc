use vstd::prelude::*;

use crate::error::ServeError;
use vstd::string::StrSliceExecFns;

verus! {

/// Position of the last `.` in `s`, if any.
pub open spec fn last_dot(s: Seq<char>) -> Option<int>
    decreases s.len(),
{
    if s.len() == 0 {
        None
    } else if s.last() == '.' {
        Some(s.len() - 1)
    } else {
        last_dot(s.drop_last())
    }
}

/// Splits a path after its last `.`: the directory (with the separator) and the
/// base name. A path without a separator has an empty directory.
pub open spec fn prefix_spec(s: Seq<char>) -> (Seq<char>, Seq<char>) {
    match last_dot(s) {
        Some(i) => (s.subrange(0, i + 1), s.subrange(i + 1, s.len() as int)),
        None => (Seq::empty(), s),
    }
}

proof fn lemma_last_dot(s: Seq<char>)
    ensures
        match last_dot(s) {
            Some(i) => 0 <= i < s.len() && s[i] == '.' && forall|j: int| i < j < s.len() ==> s[j] != '.',
            None => forall|j: int| 0 <= j < s.len() ==> s[j] != '.',
        },
    decreases s.len(),
{
    if s.len() > 0 && s.last() != '.' {
        lemma_last_dot(s.drop_last());
        assert forall|j: int| 0 <= j < s.len() - 1 implies s.drop_last()[j] == s[j] by {}
    }
}

/// A path is its directory followed by its base name; the directory is empty or
/// ends with `.`, and the base name holds no `.`.
pub proof fn lemma_prefix_split(p: Seq<char>)
    ensures
        prefix_spec(p).0 + prefix_spec(p).1 == p,
        prefix_spec(p).0.len() == 0 || prefix_spec(p).0.last() == '.',
        forall|j: int| 0 <= j < prefix_spec(p).1.len() ==> prefix_spec(p).1[j] != '.',
{
    lemma_last_dot(p);
    match last_dot(p) {
        Some(i) => {
            assert(p.subrange(0, i + 1) + p.subrange(i + 1, p.len() as int) =~= p);
            assert forall|j: int| 0 <= j < prefix_spec(p).1.len() implies prefix_spec(p).1[j] != '.' by {
                assert(prefix_spec(p).1[j] == p[i + 1 + j]);
            }
        },
        None => {
            assert(Seq::<char>::empty() + p =~= p);
        },
    }
}

/// Appending a string adds its characters to the names.
pub proof fn lemma_names_push(v: Seq<String>, b: String)
    ensures
        names(v.push(b)) == names(v).insert(b@),
{
    let f = |x: String| x@;
    assert(v.push(b).map_values(f) =~= v.map_values(f).push(b@));
    assert forall|x: Seq<char>| names(v.push(b)).contains(x) <==> names(v).insert(b@).contains(x) by {
        if names(v).contains(x) {
            let k = choose|k: int| 0 <= k < v.map_values(f).len() && v.map_values(f)[k] == x;
            assert(v.push(b).map_values(f)[k] == x);
        }
        if x == b@ {
            assert(v.push(b).map_values(f)[v.len() as int] == x);
        }
        if names(v.push(b)).contains(x) {
            let k = choose|k: int| 0 <= k < v.push(b).map_values(f).len() && v.push(b).map_values(f)[k] == x;
            if k < v.len() {
                assert(v.map_values(f)[k] == x);
            }
        }
    }
    assert(names(v.push(b)) =~= names(v).insert(b@));
}

/// Removing one of distinct strings removes its characters from the names.
pub proof fn lemma_names_remove(v: Seq<String>, j: int)
    requires
        0 <= j < v.len(),
        forall|a: int, b: int| 0 <= a < b < v.len() ==> v[a]@ != v[b]@,
    ensures
        names(v.remove(j)) == names(v).remove(v[j]@),
{
    let f = |x: String| x@;
    let w = v.remove(j);
    assert forall|x: Seq<char>| names(w).contains(x) <==> names(v).remove(v[j]@).contains(x) by {
        if names(w).contains(x) {
            let k = choose|k: int| 0 <= k < w.map_values(f).len() && w.map_values(f)[k] == x;
            if k < j {
                assert(v.map_values(f)[k] == x);
            } else {
                assert(v.map_values(f)[k + 1] == x);
            }
        }
        if names(v).remove(v[j]@).contains(x) {
            let k = choose|k: int| 0 <= k < v.map_values(f).len() && v.map_values(f)[k] == x;
            assert(k != j);
            if k < j {
                assert(w.map_values(f)[k] == x);
            } else {
                assert(w.map_values(f)[k - 1] == x);
            }
        }
    }
    assert(names(w) =~= names(v).remove(v[j]@));
}

/// The set of names under `k`, empty when the prefix is absent.
pub open spec fn listing_of(m: Map<Seq<char>, Set<Seq<char>>>, k: Seq<char>) -> Set<Seq<char>> {
    if m.contains_key(k) {
        m[k]
    } else {
        Set::empty()
    }
}

/// Whether `p` starts `s`.
fn starts_with(s: &str, p: &str) -> (r: bool)
    ensures
        r == p@.is_prefix_of(s@),
{
    let n = p.unicode_len();
    if n > s.unicode_len() {
        return false;
    }
    let mut i: usize = 0;
    while i < n
        invariant
            n == p@.len() <= s@.len(),
            i <= n,
            forall|j: int| 0 <= j < i ==> p@[j] == s@[j],
        decreases n - i,
    {
        if p.get_char(i) != s.get_char(i) {
            return false;
        }
        i = i + 1;
    }
    true
}

/// Index of the string equal to `b` in `v`.
fn find_name(v: &Vec<String>, b: &String) -> (r: Option<usize>)
    ensures
        match r {
            Some(i) => i < v@.len() && v@[i as int]@ == b@,
            None => forall|i: int| 0 <= i < v@.len() ==> v@[i]@ != b@,
        },
{
    let mut i: usize = 0;
    while i < v.len()
        invariant
            i <= v@.len(),
            forall|j: int| 0 <= j < i ==> v@[j]@ != b@,
        decreases v.len() - i,
    {
        if v[i] == *b {
            return Some(i);
        }
        i = i + 1;
    }
    None
}

/// The names registered under each directory of a broadcast.
pub struct Listing {
    pub prefix: String,
    pub bases: Vec<String>,
}

/// A handle on one registered name; handing it back to
/// [`Listings::unregister`] removes the name again.
pub struct Registration {
    pub prefix: String,
    pub base: String,
}

/// A directory of broadcast names, grouped by prefix under a root.
pub struct Listings {
    broadcast: String,
    active: Vec<Listing>,
    listing: Ghost<Map<Seq<char>, Set<Seq<char>>>>,
}

pub open spec fn names(v: Seq<String>) -> Set<Seq<char>> {
    v.map_values(|b: String| b@).to_set()
}

impl Listings {
    /// The directory: each prefix with its (never empty) set of base names.
    pub closed spec fn view(&self) -> Map<Seq<char>, Set<Seq<char>>> {
        self.listing@
    }

    pub closed spec fn root(&self) -> Seq<char> {
        self.broadcast@
    }

    pub closed spec fn wf(&self) -> bool {
        &&& forall|i: int, j: int|
            0 <= i < j < self.active@.len() ==> self.active@[i].prefix@ != self.active@[j].prefix@
        &&& forall|i: int|
            0 <= i < self.active@.len() ==> {
                &&& self.listing@.contains_key(#[trigger] self.active@[i].prefix@)
                &&& self.listing@[self.active@[i].prefix@] == names(self.active@[i].bases@)
                &&& self.active@[i].bases@.len() > 0
                &&& forall|a: int, b: int|
                    0 <= a < b < self.active@[i].bases@.len() ==> self.active@[i].bases@[a]@
                        != self.active@[i].bases@[b]@
            }
        &&& forall|k: Seq<char>|
            self.listing@.contains_key(k) ==> exists|i: int|
                0 <= i < self.active@.len() && #[trigger] self.active@[i].prefix@ == k
    }

    pub fn new(broadcast: String) -> (r: Listings)
        ensures
            r.wf(),
            r.root() == broadcast@,
            r@ == Map::<Seq<char>, Set<Seq<char>>>::empty(),
    {
        Listings { broadcast, active: Vec::new(), listing: Ghost(Map::empty()) }
    }

    /// The name of the broadcast the directory lives in.
    pub fn broadcast(&self) -> (r: String)
        ensures
            r@ == self.root(),
    {
        self.broadcast.clone()
    }

    /// Index of the listing for `prefix`.
    fn find(&self, prefix: &String) -> (r: Option<usize>)
        ensures
            match r {
                Some(i) => i < self.active@.len() && self.active@[i as int].prefix@ == prefix@,
                None => forall|i: int| 0 <= i < self.active@.len() ==> self.active@[i].prefix@ != prefix@,
            },
    {
        let mut i: usize = 0;
        while i < self.active.len()
            invariant
                i <= self.active@.len(),
                forall|j: int| 0 <= j < i ==> self.active@[j].prefix@ != prefix@,
            decreases self.active.len() - i,
        {
            if self.active[i].prefix == *prefix {
                return Some(i);
            }
            i = i + 1;
        }
        None
    }

    /// Registers `path`: its base name is added to the listing of its directory,
    /// relative to the root. Paths outside the root are ignored (`Ok(None)`);
    /// a name that is already registered is refused with `Duplicate`.
    pub fn register(&mut self, path: &str) -> (r: Result<Option<Registration>, ServeError>)
        requires
            old(self).wf(),
        ensures
            final(self).wf(),
            final(self).root() == old(self).root(),
            ({
                let dir = prefix_spec(path@).0;
                let base = prefix_spec(path@).1;
                let rel = dir.subrange(old(self).root().len() as int, dir.len() as int);
                if !old(self).root().is_prefix_of(dir) {
                    r == Ok::<Option<Registration>, ServeError>(None) && final(self)@ == old(self)@
                } else if listing_of(old(self)@, rel).contains(base) {
                    r == Err::<Option<Registration>, ServeError>(ServeError::Duplicate) && final(self)@ == old(self)@
                } else {
                    &&& r matches Ok(Some(reg))
                    &&& reg.prefix@ == rel
                    &&& reg.base@ == base
                    &&& final(self)@ == old(self)@.insert(rel, listing_of(old(self)@, rel).insert(base))
                }
            }),
    {
        let (dir, base) = Listings::prefix(path);
        if !starts_with(dir, self.broadcast.as_str()) {
            return Ok(None);
        }
        let rel = dir.substring_char(self.broadcast.as_str().unicode_len(), dir.unicode_len()).to_owned();
        let base = base.to_owned();
        let ghost old_map = self.listing@;
        match self.find(&rel) {
            Some(i) => {
                proof {
                    assert(self.active@[i as int].prefix@ == rel@);
                }
                if find_name(&self.active[i].bases, &base).is_some() {
                    proof {
                        let bs = self.active@[i as int].bases@;
                        let k = choose|k: int| 0 <= k < bs.len() && bs[k]@ == base@;
                        assert(bs.map_values(|x: String| x@)[k] == base@);
                    }
                    return Err(ServeError::Duplicate);
                }
                let mut l = self.active.remove(i);
                proof {
                    lemma_names_push(l.bases@, base);
                }
                let ghost old_bases = l.bases@;
                l.bases.push(base.clone());
                self.active.insert(i, l);
                self.listing = Ghost(old_map.insert(rel@, old_map[rel@].insert(base@)));
                proof {
                    assert(names(self.active@[i as int].bases@) == names(old_bases).insert(base@));
                    assert forall|k: Seq<char>| self.listing@.contains_key(k) implies exists|j: int|
                        0 <= j < self.active@.len() && #[trigger] self.active@[j].prefix@ == k by {
                        if k != rel@ {
                            let j = choose|j: int| 0 <= j < old(self).active@.len() && #[trigger] old(self).active@[j].prefix@ == k;
                            assert(self.active@[j].prefix@ == k);
                        } else {
                            assert(self.active@[i as int].prefix@ == k);
                        }
                    }
                    assert forall|a: int, b: int| 0 <= a < b < self.active@[i as int].bases@.len() implies
                        self.active@[i as int].bases@[a]@ != self.active@[i as int].bases@[b]@ by {
                        if b == old_bases.len() {
                            assert(self.active@[i as int].bases@[a] == old_bases[a]);
                        }
                    }
                }
            },
            None => {
                let mut bases: Vec<String> = Vec::new();
                proof {
                    lemma_names_push(bases@, base);
                    assert(names(bases@) =~= Set::<Seq<char>>::empty());
                }
                bases.push(base.clone());
                let l = Listing { prefix: rel.clone(), bases };
                self.active.push(l);
                self.listing = Ghost(old_map.insert(rel@, Set::<Seq<char>>::empty().insert(base@)));
                proof {
                    let n = self.active@.len() - 1;
                    assert(self.active@[n].prefix@ == rel@);
                    assert forall|k: Seq<char>| self.listing@.contains_key(k) implies exists|j: int|
                        0 <= j < self.active@.len() && #[trigger] self.active@[j].prefix@ == k by {
                        if k != rel@ {
                            let j = choose|j: int| 0 <= j < old(self).active@.len() && #[trigger] old(self).active@[j].prefix@ == k;
                            assert(self.active@[j].prefix@ == k);
                        } else {
                            assert(self.active@[n].prefix@ == k);
                        }
                    }
                }
            },
        }
        Ok(Some(Registration { prefix: rel, base }))
    }

    /// Removes `base` from the listing of `prefix`; a listing left empty is
    /// removed altogether.
    fn remove(&mut self, prefix: &String, base: &String) -> (r: Result<(), ServeError>)
        requires
            old(self).wf(),
        ensures
            final(self).wf(),
            final(self).root() == old(self).root(),
            !listing_of(old(self)@, prefix@).contains(base@) ==> r == Err::<(), ServeError>(ServeError::NotFound)
                && final(self)@ == old(self)@,
            listing_of(old(self)@, prefix@).contains(base@) ==> r == Ok::<(), ServeError>(()) && final(self)@ == (
            if old(self)@[prefix@].remove(base@) == Set::<Seq<char>>::empty() {
                old(self)@.remove(prefix@)
            } else {
                old(self)@.insert(prefix@, old(self)@[prefix@].remove(base@))
            }),
    {
        let ghost old_map = self.listing@;
        let i = match self.find(prefix) {
            Some(i) => i,
            None => {
                proof {
                    if old_map.contains_key(prefix@) {
                        let j = choose|j: int| 0 <= j < self.active@.len() && #[trigger] self.active@[j].prefix@ == prefix@;
                    }
                }
                return Err(ServeError::NotFound);
            },
        };
        let j = match find_name(&self.active[i].bases, base) {
            Some(j) => j,
            None => {
                proof {
                    let bs = self.active@[i as int].bases@;
                    let vs = bs.map_values(|x: String| x@);
                    if names(bs).contains(base@) {
                        let k = choose|k: int| 0 <= k < vs.len() && #[trigger] vs[k] == base@;
                        assert(bs[k]@ == base@);
                    }
                }
                return Err(ServeError::NotFound);
            },
        };
        let mut l = self.active.remove(i);
        let ghost old_bases = l.bases@;
        proof {
            assert(old_bases.map_values(|x: String| x@)[j as int] == base@);
            assert(listing_of(old_map, prefix@).contains(base@));
            lemma_names_remove(old_bases, j as int);
        }
        l.bases.remove(j);
        let ghost left = old_map[prefix@].remove(base@);
        if l.bases.len() == 0 {
            proof {
                assert(names(l.bases@) =~= Set::<Seq<char>>::empty());
            }
            self.listing = Ghost(old_map.remove(prefix@));
            proof {
                assert forall|k: Seq<char>| self.listing@.contains_key(k) implies exists|a: int|
                    0 <= a < self.active@.len() && #[trigger] self.active@[a].prefix@ == k by {
                    let a = choose|a: int| 0 <= a < old(self).active@.len() && #[trigger] old(self).active@[a].prefix@ == k;
                    assert(a != i);
                    if a < i {
                        assert(self.active@[a].prefix@ == k);
                    } else {
                        assert(self.active@[a - 1].prefix@ == k);
                    }
                }
            }
        } else {
            proof {
                assert(names(l.bases@).contains(l.bases@[0]@)) by {
                    assert(l.bases@.map_values(|x: String| x@)[0] == l.bases@[0]@);
                }
                assert(left != Set::<Seq<char>>::empty());
                assert forall|a: int, b: int| 0 <= a < b < l.bases@.len() implies l.bases@[a]@ != l.bases@[b]@ by {
                    if a < j {
                        if b < j {
                        } else {
                            assert(l.bases@[b] == old_bases[b + 1]);
                        }
                    } else {
                        assert(l.bases@[a] == old_bases[a + 1]);
                        assert(l.bases@[b] == old_bases[b + 1]);
                    }
                }
            }
            self.active.insert(i, l);
            self.listing = Ghost(old_map.insert(prefix@, left));
            proof {
                assert forall|k: Seq<char>| self.listing@.contains_key(k) implies exists|a: int|
                    0 <= a < self.active@.len() && #[trigger] self.active@[a].prefix@ == k by {
                    let a = choose|a: int| 0 <= a < old(self).active@.len() && #[trigger] old(self).active@[a].prefix@ == k;
                    assert(self.active@[a].prefix@ == k);
                }
            }
        }
        Ok(())
    }

    /// Releases a registration: its name leaves the listing of its prefix, and
    /// the prefix goes when no name is left under it.
    pub fn unregister(&mut self, reg: Registration) -> (r: Result<(), ServeError>)
        requires
            old(self).wf(),
        ensures
            final(self).wf(),
            final(self).root() == old(self).root(),
            !listing_of(old(self)@, reg.prefix@).contains(reg.base@) ==> r == Err::<(), ServeError>(ServeError::NotFound)
                && final(self)@ == old(self)@,
            listing_of(old(self)@, reg.prefix@).contains(reg.base@) ==> r == Ok::<(), ServeError>(()) && final(self)@ == (
            if old(self)@[reg.prefix@].remove(reg.base@) == Set::<Seq<char>>::empty() {
                old(self)@.remove(reg.prefix@)
            } else {
                old(self)@.insert(reg.prefix@, old(self)@[reg.prefix@].remove(reg.base@))
            }),
    {
        self.remove(&reg.prefix, &reg.base)
    }

    /// The names currently listed under the track `name`, if that track exists.
    pub fn subscribe(&self, name: &str) -> (r: Option<Vec<String>>)
        requires
            self.wf(),
        ensures
            r is Some <==> self@.contains_key(name@),
            r matches Some(v) ==> names(v@) == self@[name@],
    {
        let key = name.to_owned();
        match self.find(&key) {
            Some(i) => {
                let mut out: Vec<String> = Vec::new();
                let mut j: usize = 0;
                while j < self.active[i].bases.len()
                    invariant
                        i < self.active@.len(),
                        j <= self.active@[i as int].bases@.len(),
                        out@.len() == j,
                        forall|k: int| 0 <= k < j ==> out@[k]@ == self.active@[i as int].bases@[k]@,
                    decreases self.active@[i as int].bases@.len() - j,
                {
                    out.push(self.active[i].bases[j].clone());
                    j = j + 1;
                }
                proof {
                    let f = |x: String| x@;
                    assert(out@.map_values(f) =~= self.active@[i as int].bases@.map_values(f));
                }
                Some(out)
            },
            None => {
                proof {
                    if self.listing@.contains_key(name@) {
                        let j = choose|j: int| 0 <= j < self.active@.len() && #[trigger] self.active@[j].prefix@ == name@;
                    }
                }
                None
            },
        }
    }

    /// Splits a path after its last `.` into directory and base name.
    pub fn prefix(path: &str) -> (r: (&str, &str))
        ensures
            (r.0@, r.1@) == prefix_spec(path@),
    {
        let n = path.unicode_len();
        let mut i = n;
        assert(path@.subrange(0, n as int) =~= path@);
        while i > 0
            invariant
                i <= n == path@.len(),
                last_dot(path@) == last_dot(path@.subrange(0, i as int)),
            decreases i,
        {
            let ghost s = path@.subrange(0, i as int);
            assert(s.drop_last() =~= path@.subrange(0, i - 1));
            if path.get_char(i - 1) == '.' {
                return (path.substring_char(0, i), path.substring_char(i, n));
            }
            i = i - 1;
        }
        assert(path@.subrange(0, 0) =~= Seq::<char>::empty());
        (path.substring_char(0, 0), path)
    }
}

} // verus!
