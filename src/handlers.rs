use crate::package::PackageType;
use nohash::IntMap;
use vstd::prelude::*;

verus! {

#[verifier::external_type_specification]
#[verifier::external_body]
#[verifier::reject_recursive_types(H)]
pub struct ExBuildHasherDefault<H>(std::hash::BuildHasherDefault<H>);

#[verifier::external_type_specification]
#[verifier::external_body]
#[verifier::reject_recursive_types(T)]
pub struct ExNoHashHasher<T>(nohash::NoHashHasher<T>);

/// Each peer's registrations, keyed by its id.
pub type ByPeer<H> = IntMap<usize, Vec<(PackageType, H)>>;

/// Relies on `IntMap::default` (a std `HashMap` with nohash's hasher): it starts empty.
#[verifier::external_body]
fn int_map_new<H>() -> (r: ByPeer<H>)
    ensures
        r@.dom() == Set::<usize>::empty(),
{
    IntMap::default()
}

/// Relies on `HashMap::remove` under nohash's hasher, which takes a `usize` key through
/// `write_usize` and never panics on it: the key leaves the map and its value is handed back.
#[verifier::external_body]
fn int_map_remove<H>(m: &mut ByPeer<H>, k: usize) -> (r: Option<Vec<(PackageType, H)>>)
    ensures
        final(m)@ == old(m)@.remove(k),
        match r {
            Some(v) => old(m)@.contains_key(k) && v == old(m)@[k],
            None => !old(m)@.contains_key(k),
        },
{
    m.remove(&k)
}

/// Relies on `HashMap::insert` under nohash's hasher: the key maps to the new value.
#[verifier::external_body]
fn int_map_insert<H>(m: &mut ByPeer<H>, k: usize, v: Vec<(PackageType, H)>)
    ensures
        final(m)@ == old(m)@.insert(k, v),
{
    m.insert(k, v);
}

/// Relies on `HashMap::get` under nohash's hasher: the value of the key, if it has one.
#[verifier::external_body]
fn int_map_get<H>(m: &ByPeer<H>, k: usize) -> (r: Option<&Vec<(PackageType, H)>>)
    ensures
        match r {
            Some(v) => m@.contains_key(k) && *v == m@[k],
            None => !m@.contains_key(k),
        },
{
    m.get(&k)
}

/// Handlers registered per peer id and package type, each peer's kept in registration order.
pub struct Receivers<H> {
    by_peer: ByPeer<H>,
}

impl<H> Receivers<H> {
    /// The registrations of peer `id`, oldest first, each with the type it listens to.
    pub closed spec fn list_of(&self, id: usize) -> Seq<(PackageType, H)> {
        if self.by_peer@.contains_key(id) {
            self.by_peer@[id]@
        } else {
            Seq::empty()
        }
    }

    /// An empty table.
    pub fn new() -> (r: Receivers<H>)
        ensures
            forall|id: usize| (#[trigger] r.list_of(id)).len() == 0,
    {
        Receivers { by_peer: int_map_new() }
    }

    /// Appends `handler` to the list of peer `id` for packages of type `kind`.
    pub fn on_package(&mut self, id: usize, kind: PackageType, handler: H)
        ensures
            final(self).list_of(id) == old(self).list_of(id).push((kind, handler)),
            forall|other: usize|
                other != id ==> (#[trigger] final(self).list_of(other)) == old(self).list_of(other),
    {
        let mut list = match int_map_remove(&mut self.by_peer, id) {
            Some(v) => v,
            None => Vec::new(),
        };
        list.push((kind, handler));
        int_map_insert(&mut self.by_peer, id, list);
    }

    /// Positions, in the list of peer `id`, of its handlers for type `kind`, in registration order.
    pub fn matching(&self, id: usize, kind: PackageType) -> (r: Vec<usize>)
        ensures
            forall|k: int|
                0 <= k < r@.len() ==> (#[trigger] r@[k]) < self.list_of(id).len()
                    && self.list_of(id)[r@[k] as int].0 == kind,
            forall|k: int, l: int| 0 <= k < l < r@.len() ==> #[trigger] r@[k] < #[trigger] r@[l],
            forall|j: int|
                0 <= j < self.list_of(id).len() && (#[trigger] self.list_of(id)[j]).0 == kind
                    ==> r@.contains(j as usize),
    {
        let mut r: Vec<usize> = Vec::new();
        let list = match int_map_get(&self.by_peer, id) {
            Some(v) => v,
            None => {
                return r;
            },
        };
        let mut i: usize = 0;
        while i < list.len()
            invariant
                list@ == self.list_of(id),
                i <= list@.len(),
                forall|k: int|
                    0 <= k < r@.len() ==> (#[trigger] r@[k]) < i && list@[r@[k] as int].0 == kind,
                forall|k: int, l: int| 0 <= k < l < r@.len() ==> #[trigger] r@[k] < #[trigger] r@[l],
                forall|j: int|
                    0 <= j < i && (#[trigger] list@[j]).0 == kind ==> r@.contains(j as usize),
            decreases list@.len() - i,
        {
            if list[i].0 == kind {
                let ghost before = r@;
                r.push(i);
                proof {
                    assert forall|j: int|
                        0 <= j < i + 1 && (#[trigger] list@[j]).0 == kind implies r@.contains(
                            j as usize,
                        ) by {
                        if j < i {
                            let w = choose|w: int| 0 <= w < before.len() && before[w] == j as usize;
                            assert(r@[w] == j as usize);
                        } else {
                            assert(r@[before.len() as int] == i);
                        }
                    }
                }
            }
            i = i + 1;
        }
        r
    }

    /// The handler at position `i` of the list of peer `id`.
    pub fn handler(&self, id: usize, i: usize) -> (r: &H)
        requires
            i < self.list_of(id).len(),
        ensures
            *r == self.list_of(id)[i as int].1,
    {
        match int_map_get(&self.by_peer, id) {
            Some(list) => &list[i].1,
            None => vstd::pervasive::unreached(),
        }
    }
}

} // verus!
