use vstd::prelude::*;

use crate::track::GroupInfo;
use indexmap::IndexMap;

verus! {

#[verifier::external_type_specification]
#[verifier::external_body]
#[verifier::reject_recursive_types(K)]
#[verifier::reject_recursive_types(V)]
#[verifier::reject_recursive_types(S)]
pub struct ExIndexMap<K, V, S>(IndexMap<K, V, S>);

/// The pairs of a group log in their order of insertion.
pub uninterp spec fn log_entries(m: IndexMap<u64, Option<GroupInfo>>) -> Seq<(u64, Option<GroupInfo>)>;

/// Whether some pair of `s` has the key `k`.
pub open spec fn has_key(s: Seq<(u64, Option<GroupInfo>)>, k: u64) -> bool {
    exists|i: int| 0 <= i < s.len() && (#[trigger] s[i]).0 == k
}

/// Relies on `IndexMap::new`: the new map is empty.
#[verifier::external_body]
pub(crate) fn log_new() -> (r: IndexMap<u64, Option<GroupInfo>>)
    ensures
        log_entries(r) == Seq::<(u64, Option<GroupInfo>)>::empty(),
{
    IndexMap::new()
}

/// Relies on `IndexMap::len`: the number of pairs.
#[verifier::external_body]
pub(crate) fn log_len(m: &IndexMap<u64, Option<GroupInfo>>) -> (r: usize)
    ensures
        r == log_entries(*m).len(),
{
    m.len()
}

/// Relies on `IndexMap::get_index`: the pair at a position, if it is in range.
#[verifier::external_body]
pub(crate) fn log_get_index(m: &IndexMap<u64, Option<GroupInfo>>, i: usize) -> (r: Option<(u64, Option<GroupInfo>)>)
    ensures
        r == (if i < log_entries(*m).len() {
            Some(log_entries(*m)[i as int])
        } else {
            None
        }),
{
    m.get_index(i).map(|(k, v)| (*k, *v))
}

/// Relies on `IndexMap::contains_key`: whether some pair has the key.
#[verifier::external_body]
pub(crate) fn log_contains_key(m: &IndexMap<u64, Option<GroupInfo>>, k: u64) -> (r: bool)
    ensures
        r == has_key(log_entries(*m), k),
{
    m.contains_key(&k)
}

/// Relies on `IndexMap::get`: the value stored for the key, if present.
#[verifier::external_body]
pub(crate) fn log_get(m: &IndexMap<u64, Option<GroupInfo>>, k: u64) -> (r: Option<Option<GroupInfo>>)
    ensures
        forall|i: int| 0 <= i < log_entries(*m).len() && (#[trigger] log_entries(*m)[i]).0 == k ==> r == Some(
            log_entries(*m)[i].1,
        ),
        !has_key(log_entries(*m), k) ==> r == None::<Option<GroupInfo>>,
{
    m.get(&k).copied()
}

/// Relies on `IndexMap::insert`: a present key keeps its place and takes the new
/// value; an absent one is appended last.
#[verifier::external_body]
pub(crate) fn log_insert(m: &mut IndexMap<u64, Option<GroupInfo>>, k: u64, v: Option<GroupInfo>) -> (r: Option<Option<GroupInfo>>)
    ensures
        forall|i: int|
            0 <= i < log_entries(*old(m)).len() && (#[trigger] log_entries(*old(m))[i]).0 == k
                ==> log_entries(*final(m)) == log_entries(*old(m)).update(i, (k, v)) && r == Some(
                log_entries(*old(m))[i].1,
            ),
        (forall|i: int| 0 <= i < log_entries(*old(m)).len() ==> (#[trigger] log_entries(*old(m))[i]).0 != k)
            ==> log_entries(*final(m)) == log_entries(*old(m)).push((k, v)) && r == None::<Option<GroupInfo>>,
{
    m.insert(k, v)
}

/// Relies on `IndexMap::shift_remove_index`: removes the pair at a position and
/// shifts the later ones down.
#[verifier::external_body]
pub(crate) fn log_shift_remove_index(m: &mut IndexMap<u64, Option<GroupInfo>>, i: usize) -> (r: Option<(u64, Option<GroupInfo>)>)
    ensures
        i < log_entries(*old(m)).len() ==> log_entries(*final(m)) == log_entries(*old(m)).remove(i as int) && r == Some(
            log_entries(*old(m))[i as int],
        ),
        i >= log_entries(*old(m)).len() ==> log_entries(*final(m)) == log_entries(*old(m)) && r
            == None::<(u64, Option<GroupInfo>)>,
{
    m.shift_remove_index(i)
}

} // verus!
