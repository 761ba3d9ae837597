//! Trusted interface to the concurrent hash map that backs the store.
//!
//! The map's contents are modelled by the uninterpreted function
//! [`dm_contents`], and each operation the store needs is wrapped in a
//! function whose contract states, over that model, what the operation does.
use vstd::prelude::*;

verus! {

/// What one key maps to: the stored text, the optional absolute expiration
/// timestamp, and the timestamp of the last access.
pub type Slot = (String, Option<u64>, u64);

/// The mathematical counterpart of a [`Slot`].
pub type SlotView = (Seq<char>, Option<u64>, u64);

#[verifier::external_type_specification]
#[verifier::external_body]
#[verifier::reject_recursive_types(K)]
#[verifier::reject_recursive_types(V)]
#[verifier::reject_recursive_types(S)]
pub struct ExDashMap<K, V, S>(dashmap::DashMap<K, V, S>);

/// The mapping a concurrent map currently holds, from each key to its slot.
pub uninterp spec fn dm_contents(m: dashmap::DashMap<String, Slot>) -> Map<Seq<char>, SlotView>;

/// Relies on `dashmap::DashMap::new`: a freshly created map holds no entries.
#[verifier::external_body]
pub(crate) fn dm_new() -> (r: dashmap::DashMap<String, Slot>)
    ensures
        dm_contents(r).dom() =~= Set::<Seq<char>>::empty(),
{
    dashmap::DashMap::new()
}

/// Relies on `dashmap::DashMap::insert`: stores the value under the key,
/// overwriting any previous value.
#[verifier::external_body]
pub(crate) fn dm_insert(
    m: &mut dashmap::DashMap<String, Slot>,
    key: String,
    value: String,
    expires_at: Option<u64>,
    last_accessed: u64,
)
    ensures
        dm_contents(*final(m)) == dm_contents(*old(m)).insert(
            key@,
            (value@, expires_at, last_accessed),
        ),
{
    m.insert(key, (value, expires_at, last_accessed));
}

/// Relies on `dashmap::DashMap::get`: returns the value stored under the
/// key, if any. The result is cloned out of the map.
#[verifier::external_body]
pub(crate) fn dm_get(m: &mut dashmap::DashMap<String, Slot>, key: &str) -> (r: Option<Slot>)
    ensures
        dm_contents(*final(m)) == dm_contents(*old(m)),
        match r {
            Some(t) => dm_contents(*old(m)).contains_pair(key@, (t.0@, t.1, t.2)),
            None => !dm_contents(*old(m)).contains_key(key@),
        },
{
    match m.get(key) {
        Some(r) => Some(r.value().clone()),
        None => None,
    }
}

/// Relies on `dashmap::DashMap::remove`: removes the entry under the key,
/// if any.
#[verifier::external_body]
pub(crate) fn dm_remove(m: &mut dashmap::DashMap<String, Slot>, key: &str)
    ensures
        dm_contents(*final(m)) == dm_contents(*old(m)).remove(key@),
{
    m.remove(key);
}

/// Relies on `dashmap::DashMap::len`: returns the number of entries.
#[verifier::external_body]
pub(crate) fn dm_len(m: &mut dashmap::DashMap<String, Slot>) -> (r: usize)
    ensures
        dm_contents(*final(m)) == dm_contents(*old(m)),
        r == dm_contents(*old(m)).dom().len(),
{
    m.len()
}

/// Relies on `dashmap::DashMap::iter`: absent concurrent writers (excluded
/// here by exclusive access), iteration visits every entry exactly once.
#[verifier::external_body]
pub(crate) fn dm_entries(m: &mut dashmap::DashMap<String, Slot>) -> (r: Vec<
    (String, String, Option<u64>, u64),
>)
    ensures
        dm_contents(*final(m)) == dm_contents(*old(m)),
        forall|i: int|
            0 <= i < r@.len() ==> dm_contents(*old(m)).contains_pair(
                #[trigger] r@[i].0@,
                (r@[i].1@, r@[i].2, r@[i].3),
            ),
        forall|i: int, j: int| 0 <= i < j < r@.len() ==> r@[i].0@ != r@[j].0@,
        forall|k: Seq<char>| #[trigger]
            dm_contents(*old(m)).contains_key(k) ==> exists|i: int|
                0 <= i < r@.len() && #[trigger] r@[i].0@ == k,
{
    let mut out = Vec::new();
    for e in m.iter() {
        out.push((e.key().clone(), e.value().0.clone(), e.value().1, e.value().2));
    }
    out
}

} // verus!
