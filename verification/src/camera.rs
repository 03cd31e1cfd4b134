//! Camera registry: sequential camera ids and the road edges each camera
//! covers.
//!
//! A camera's placement (position, heading, field of view and range) is
//! floating point and stays with the caller, which computes the covered
//! edges from it; the registry keeps the ids, names and covered edges.
use std::collections::HashMap;
use vstd::prelude::*;
use vstd::std_specs::iter::IteratorSpec;

verus! {

broadcast use vstd::std_specs::hash::group_hash_axioms;

/// A registered camera with its covered edges.
#[derive(Debug)]
pub struct Camera {
    /// Camera id, assigned by the registry.
    pub id: u32,
    /// Human-readable name.
    pub name: String,
    /// Ids of the road edges the camera covers.
    pub covered_edges: Vec<u32>,
}

/// Registry of cameras with sequential id assignment, starting at 1.
#[derive(Debug)]
pub struct CameraRegistry {
    cameras: HashMap<u32, Camera>,
    next_id: u32,
}

impl CameraRegistry {
    /// The registered cameras by id.
    pub closed spec fn entries(&self) -> Map<u32, Camera> {
        self.cameras@
    }

    /// The id the next registered camera gets.
    pub closed spec fn next(&self) -> u32 {
        self.next_id
    }

    /// Every camera is stored under its own id, below the next id, and ids
    /// start at 1.
    #[verifier::type_invariant]
    spec fn inv(self) -> bool {
        &&& self.next_id >= 1
        &&& forall|k: u32| #[trigger] self.cameras@.contains_key(k) ==> 1 <= k < self.next_id && self.cameras@[k].id == k
    }

    /// Create an empty registry; the first camera gets id 1.
    pub fn new() -> (r: Self)
        ensures
            r.entries() == Map::<u32, Camera>::empty(),
            r.next() == 1,
    {
        CameraRegistry { cameras: HashMap::new(), next_id: 1 }
    }

    /// Store a camera under the next sequential id, with default placement
    /// left to the caller, and return that id.
    pub fn insert_camera(&mut self, name: &str, covered_edges: Vec<u32>) -> (id: u32)
        requires
            old(self).next() < u32::MAX,
        ensures
            id == old(self).next(),
            final(self).next() == id + 1,
            !old(self).entries().contains_key(id),
            final(self).entries().dom() == old(self).entries().dom().insert(id),
            final(self).entries()[id].id == id,
            final(self).entries()[id].name@ == name@,
            final(self).entries()[id].covered_edges@ == covered_edges@,
            forall|k: u32| k != id ==> #[trigger] final(self).entries().contains_key(k) ==> final(self).entries()[k]
                == old(self).entries()[k],
    {
        proof {
            use_type_invariant(&*self);
        }
        let id = self.next_id;
        let camera = Camera { id, name: name.to_owned(), covered_edges };
        let mut cameras: HashMap<u32, Camera> = HashMap::new();
        std::mem::swap(&mut cameras, &mut self.cameras);
        cameras.insert(id, camera);
        self.next_id = id + 1;
        self.cameras = cameras;
        id
    }

    /// The camera with the given id, if registered.
    pub fn get(&self, id: u32) -> (r: Option<&Camera>)
        ensures
            match r {
                Some(c) => self.entries().contains_key(id) && *c == self.entries()[id] && c.id == id,
                None => !self.entries().contains_key(id),
            },
    {
        proof {
            use_type_invariant(self);
        }
        self.cameras.get(&id)
    }

    /// Whether a camera with the given id is registered.
    pub fn contains(&self, id: u32) -> (r: bool)
        ensures
            r == self.entries().contains_key(id),
    {
        self.cameras.contains_key(&id)
    }

    /// All registered cameras, each once, in no particular order.
    pub fn list(&self) -> (r: Vec<&Camera>)
        ensures
            forall|i: int| 0 <= i < r@.len() ==> self.entries().contains_key(r@[i].id) && *r@[i] == self.entries()[r@[i].id],
            forall|i: int, j: int| 0 <= i < j < r@.len() ==> r@[i].id != r@[j].id,
            forall|k: u32| #[trigger] self.entries().contains_key(k) ==> exists|i: int| 0 <= i < r@.len() && r@[i].id == k,
    {
        proof {
            use_type_invariant(self);
        }
        let m = &self.cameras;
        let ghost g = vstd::std_specs::hash::spec_hash_map_iter(m).remaining();
        let mut r: Vec<&Camera> = Vec::new();
        for e in it: m.iter()
            invariant
                it.seq() == g,
                g.no_duplicates(),
                forall|i: int| 0 <= i < g.len() ==> m@.contains_key(*g[i].0) && m@[*g[i].0] == *g[i].1,
                forall|x: u32| #[trigger] m@.contains_key(x) ==> g.contains((&x, &m@[x])),
                forall|k: u32| #[trigger] m@.contains_key(k) ==> 1 <= k < self.next_id && m@[k].id == k,
                r@.len() == it.index(),
                forall|i: int| 0 <= i < r@.len() ==> r@[i] == g[i].1,
        {
            r.push(e.1);
        }
        proof {
            assert forall|i: int| 0 <= i < r@.len() implies self.entries().contains_key(r@[i].id) && *r@[i]
                == self.entries()[r@[i].id] by {
                assert(m@.contains_key(*g[i].0) && m@[*g[i].0] == *g[i].1);
            }
            assert forall|i: int, j: int| 0 <= i < j < r@.len() implies r@[i].id != r@[j].id by {
                assert(m@[*g[i].0] == *g[i].1 && m@[*g[j].0] == *g[j].1);
                if r@[i].id == r@[j].id {
                    assert(*g[i].0 == *g[j].0);
                    assert(g[i] == g[j]);
                }
            }
            assert forall|k: u32| #[trigger] self.entries().contains_key(k) implies exists|i: int| 0 <= i < r@.len() && r@[i].id == k by {
                assert(g.contains((&k, &m@[k])));
                let i = choose|i: int| 0 <= i < g.len() && g[i] == (&k, &m@[k]);
                assert(r@[i].id == k);
            }
        }
        r
    }
}

impl Default for CameraRegistry {
    fn default() -> (r: Self)
        ensures
            r.entries() == Map::<u32, Camera>::empty(),
            r.next() == 1,
    {
        Self::new()
    }
}

} // verus!
