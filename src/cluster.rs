use vstd::prelude::*;

use vstd::string::StringExecFns;

verus! {

/// The prefix under which origins announce themselves when none is configured.
pub open spec fn default_prefix() -> Seq<char> {
    seq!['o', 'r', 'i', 'g', 'i', 'n', '.']
}

/// How a relay joins a cluster: the root to connect to (none: no cluster), the
/// prefix origins are listed under, and this node's own name (none: a
/// read-only member).
pub struct ClusterConfig {
    pub root: Option<String>,
    pub prefix: Option<String>,
    pub node: Option<String>,
}

impl ClusterConfig {
    pub open spec fn spec_prefix(&self) -> Seq<char> {
        match &self.prefix {
            Some(p) => p@,
            None => default_prefix(),
        }
    }

    /// The listing prefix, `origin.` unless configured.
    pub fn prefix(&self) -> (r: String)
        ensures
            r@ == self.spec_prefix(),
    {
        match &self.prefix {
            Some(p) => p.clone(),
            None => {
                proof {
                    reveal_strlit("origin.");
                }
                let r = String::from_str("origin.");
                assert(r@ =~= default_prefix());
                r
            },
        }
    }

    /// The path this node announces itself under: the prefix followed by its
    /// name; none for a read-only member.
    pub fn announce_path(&self) -> (r: Option<String>)
        ensures
            match &self.node {
                None => r is None,
                Some(n) => r matches Some(p) && p@ == self.spec_prefix() + n@,
            },
    {
        match &self.node {
            None => None,
            Some(n) => {
                let mut p = self.prefix();
                p.append(n.as_str());
                Some(p)
            },
        }
    }
}

pub open spec fn contains_name(v: Seq<String>, x: Seq<char>) -> bool {
    exists|i: int| 0 <= i < v.len() && (#[trigger] v[i])@ == x
}

fn has_name(v: &Vec<String>, x: &String) -> (r: bool)
    ensures
        r == contains_name(v@, x@),
{
    let mut i: usize = 0;
    while i < v.len()
        invariant
            i <= v@.len(),
            forall|j: int| 0 <= j < i ==> v@[j]@ != x@,
        decreases v.len() - i,
    {
        if v[i] == *x {
            return true;
        }
        i = i + 1;
    }
    false
}

/// Whether a listed origin is one to start reaching: not known yet, and not
/// this node.
pub open spec fn qualifies(x: Seq<char>, known: Seq<String>, own: Option<String>) -> bool {
    !contains_name(known, x) && !(own matches Some(o) && o@ == x)
}

/// The origins to reach, in listing order, each once.
pub open spec fn origins_spec(listed: Seq<String>, known: Seq<String>, own: Option<String>) -> Seq<Seq<char>>
    decreases listed.len(),
{
    if listed.len() == 0 {
        Seq::empty()
    } else {
        let prev = origins_spec(listed.drop_last(), known, own);
        let x = listed.last()@;
        if qualifies(x, known, own) && !prev.contains(x) {
            prev.push(x)
        } else {
            prev
        }
    }
}

/// The origins listed in the cluster that this node should start reaching: those
/// not known yet and not itself, each once, in listing order.
pub fn new_origins(listed: &Vec<String>, known: &Vec<String>, own: &Option<String>) -> (r: Vec<String>)
    ensures
        forall|i: int| 0 <= i < r@.len() ==> contains_name(listed@, #[trigger] r@[i]@) && !contains_name(known@, r@[i]@)
            && !(own matches Some(o) && o@ == r@[i]@),
        forall|i: int| 0 <= i < listed@.len() && !contains_name(known@, (#[trigger] listed@[i])@) && !(own matches Some(o) && o@
            == listed@[i]@) ==> contains_name(r@, listed@[i]@),
        forall|a: int, b: int| 0 <= a < b < r@.len() ==> r@[a]@ != r@[b]@,
        r@.map_values(|x: String| x@) == origins_spec(listed@, known@, *own),
{
    let mut out: Vec<String> = Vec::new();
    let mut i: usize = 0;
    assert(out@.map_values(|x: String| x@) =~= origins_spec(listed@.subrange(0, 0), known@, *own));
    while i < listed.len()
        invariant
            i <= listed@.len(),
            forall|k: int| 0 <= k < out@.len() ==> contains_name(listed@, #[trigger] out@[k]@) && !contains_name(known@, out@[k]@)
                && !(own matches Some(o) && o@ == out@[k]@),
            forall|k: int| 0 <= k < i && !contains_name(known@, (#[trigger] listed@[k])@) && !(own matches Some(o) && o@
                == listed@[k]@) ==> contains_name(out@, listed@[k]@),
            forall|a: int, b: int| 0 <= a < b < out@.len() ==> out@[a]@ != out@[b]@,
            out@.map_values(|x: String| x@) == origins_spec(listed@.subrange(0, i as int), known@, *own),
        decreases listed.len() - i,
    {
        let ghost vs = out@.map_values(|x: String| x@);
        proof {
            assert(listed@.subrange(0, i + 1).drop_last() =~= listed@.subrange(0, i as int));
            assert(listed@.subrange(0, i + 1).last() == listed@[i as int]);
            assert(contains_name(out@, listed@[i as int]@) == vs.contains(listed@[i as int]@)) by {
                if contains_name(out@, listed@[i as int]@) {
                    let m = choose|m: int| 0 <= m < out@.len() && (#[trigger] out@[m])@ == listed@[i as int]@;
                    assert(vs[m] == listed@[i as int]@);
                }
                if vs.contains(listed@[i as int]@) {
                    let m = choose|m: int| 0 <= m < vs.len() && vs[m] == listed@[i as int]@;
                    assert(out@[m]@ == listed@[i as int]@);
                }
            }
        }
        let name = &listed[i];
        let is_own = match own {
            Some(o) => *o == *name,
            None => false,
        };
        if !is_own && !has_name(known, name) && !has_name(&out, name) {
            let ghost before = out@;
            out.push(name.clone());
            proof {
                assert(out@.map_values(|x: String| x@) =~= vs.push(name@));
                assert(contains_name(listed@, name@));
                assert forall|k: int| 0 <= k < i + 1 && !contains_name(known@, (#[trigger] listed@[k])@) && !(own matches Some(o)
                    && o@ == listed@[k]@) implies contains_name(out@, listed@[k]@) by {
                    if k < i {
                        let m = choose|m: int| 0 <= m < before.len() && (#[trigger] before[m])@ == listed@[k]@;
                        assert(out@[m] == before[m]);
                    } else {
                        assert(out@[before.len() as int]@ == listed@[k]@);
                    }
                }
                assert forall|k: int| 0 <= k < out@.len() implies contains_name(listed@, #[trigger] out@[k]@) && !contains_name(known@, out@[k]@)
                    && !(own matches Some(o) && o@ == out@[k]@) by {
                    if k < before.len() {
                        assert(out@[k] == before[k]);
                    }
                }
            }
        }
        i = i + 1;
    }
    assert(listed@.subrange(0, i as int) =~= listed@);
    out
}

} // verus!
