//! The process-wide room registry: a mapping from room name to room. The
//! transport serialises access (one lock around the whole registry), so
//! every operation here sees and leaves a consistent map with distinct
//! names.

use vstd::prelude::*;
use crate::room::{room_wf, GameRoom};
use crate::text::str_eq;

verus! {

/// The registry of live rooms, keyed by their names.
pub struct Registry {
    pub rooms: Vec<(String, GameRoom)>,
}

/// Rooms are well-formed and names are distinct.
pub open spec fn registry_wf(r: Registry) -> bool {
    &&& forall|i: int| 0 <= i < r.rooms@.len() ==> room_wf((#[trigger] r.rooms@[i]).1)
    &&& forall|i: int, j: int|
        0 <= i < j < r.rooms@.len() ==> (#[trigger] r.rooms@[i]).0@ != (#[trigger] r.rooms@[j]).0@
}

/// Some room carries this name.
pub open spec fn has_room(r: Registry, n: Seq<char>) -> bool {
    exists|i: int| 0 <= i < r.rooms@.len() && (#[trigger] r.rooms@[i]).0@ == n
}

impl Registry {
    /// An empty registry.
    pub fn new() -> (r: Registry)
        ensures
            registry_wf(r),
            r.rooms@.len() == 0,
    {
        Registry { rooms: Vec::new() }
    }

    /// The index of the room with the given name, if any.
    pub fn find(&self, name: &str) -> (r: Option<usize>)
        ensures
            match r {
                Some(i) => i < self.rooms@.len() && self.rooms@[i as int].0@ == name@,
                None => !has_room(*self, name@),
            },
    {
        let n = self.rooms.len();
        let mut i: usize = 0;
        while i < n
            invariant
                i <= n,
                n == self.rooms@.len(),
                forall|k: int| 0 <= k < i ==> (#[trigger] self.rooms@[k]).0@ != name@,
            decreases n - i,
        {
            if str_eq(self.rooms[i].0.as_str(), name) {
                return Some(i);
            }
            i += 1;
        }
        proof {
            if has_room(*self, name@) {
                let k = choose|k: int|
                    0 <= k < self.rooms@.len() && (#[trigger] self.rooms@[k]).0@ == name@;
            }
        }
        None
    }

    /// The index of the room with the given name, creating a fresh room
    /// under that name if none exists yet.
    pub fn get_or_create(&mut self, name: &str) -> (i: usize)
        requires
            registry_wf(*old(self)),
        ensures
            registry_wf(*final(self)),
            i < final(self).rooms@.len(),
            final(self).rooms@[i as int].0@ == name@,
            has_room(*old(self), name@) ==> *final(self) == *old(self),
            !has_room(*old(self), name@) ==> final(self).rooms@.len() == old(self).rooms@.len()
                + 1 && final(self).rooms@.subrange(0, old(self).rooms@.len() as int) == old(
                self,
            ).rooms@ && ({
                let fresh = final(self).rooms@[old(self).rooms@.len() as int].1;
                &&& fresh.board@ == crate::board::fresh_model(15, 15, 3)
                &&& fresh.players.black is None
                &&& fresh.players.white is None
                &&& fresh.game_generation_number == 0
            }),
    {
        match self.find(name) {
            Some(i) => {
                proof {
                    assert(has_room(*self, name@));
                }
                i
            },
            None => {
                let ghost oldrooms = self.rooms@;
                let i = self.rooms.len();
                self.rooms.push((String::from_str(name), GameRoom::new()));
                proof {
                    assert(self.rooms@.subrange(0, oldrooms.len() as int) =~= oldrooms);
                    assert forall|a: int, b: int|
                        0 <= a < b < self.rooms@.len() implies (#[trigger] self.rooms@[a]).0@ != (
                    #[trigger] self.rooms@[b]).0@ by {
                        if b == oldrooms.len() {
                            assert(self.rooms@[a] == oldrooms[a]);
                        }
                    }
                }
                i
            },
        }
    }

    /// A mutable handle on the room at an index; the name stays.
    pub fn room_at<'a>(&'a mut self, i: usize) -> (r: &'a mut GameRoom)
        requires
            i < old(self).rooms@.len(),
        ensures
            *r == old(self).rooms@[i as int].1,
            final(self).rooms@ == old(self).rooms@.update(
                i as int,
                (old(self).rooms@[i as int].0, *final(r)),
            ),
    {
        let pair = &mut self.rooms[i];
        &mut pair.1
    }

    /// Evicts the room with the given name; without one, nothing changes.
    pub fn remove_room(&mut self, name: &str)
        requires
            registry_wf(*old(self)),
        ensures
            registry_wf(*final(self)),
            !has_room(*old(self), name@) ==> *final(self) == *old(self),
            has_room(*old(self), name@) ==> exists|k: int|
                0 <= k < old(self).rooms@.len() && (#[trigger] old(self).rooms@[k]).0@ == name@
                    && final(self).rooms@ == old(self).rooms@.remove(k),
            !has_room(*final(self), name@),
    {
        match self.find(name) {
            Some(i) => {
                let ghost oldrooms = self.rooms@;
                self.rooms.remove(i);
                proof {
                    assert(has_room(*old(self), name@));
                    assert forall|a: int, b: int|
                        0 <= a < b < self.rooms@.len() implies (#[trigger] self.rooms@[a]).0@ != (
                    #[trigger] self.rooms@[b]).0@ by {
                        assert(self.rooms@[a] == if a < i {
                            oldrooms[a]
                        } else {
                            oldrooms[a + 1]
                        });
                        assert(self.rooms@[b] == if b < i {
                            oldrooms[b]
                        } else {
                            oldrooms[b + 1]
                        });
                    }
                    assert forall|a: int| 0 <= a < self.rooms@.len() implies room_wf(
                        (#[trigger] self.rooms@[a]).1,
                    ) by {
                        assert(self.rooms@[a] == if a < i {
                            oldrooms[a]
                        } else {
                            oldrooms[a + 1]
                        });
                    }
                    if has_room(*self, name@) {
                        let k = choose|k: int|
                            0 <= k < self.rooms@.len() && (#[trigger] self.rooms@[k]).0@ == name@;
                        assert(self.rooms@[k] == if k < i {
                            oldrooms[k]
                        } else {
                            oldrooms[k + 1]
                        });
                    }
                }
            },
            None => {},
        }
    }

    /// Empties the registry.
    pub fn reset_memory(&mut self)
        ensures
            registry_wf(*final(self)),
            final(self).rooms@.len() == 0,
    {
        self.rooms.clear();
    }

    /// The names of all live rooms, in registry order.
    pub fn get_all_games(&self) -> (r: Vec<String>)
        ensures
            r@.len() == self.rooms@.len(),
            forall|k: int| 0 <= k < r@.len() ==> (#[trigger] r@[k])@ == self.rooms@[k].0@,
    {
        let n = self.rooms.len();
        let mut out: Vec<String> = Vec::new();
        let mut i: usize = 0;
        while i < n
            invariant
                i <= n,
                n == self.rooms@.len(),
                out@.len() == i,
                forall|k: int| 0 <= k < i ==> (#[trigger] out@[k])@ == self.rooms@[k].0@,
            decreases n - i,
        {
            out.push(self.rooms[i].0.clone());
            i += 1;
        }
        out
    }
}

} // verus!
