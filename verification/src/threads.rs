//! The remote threads of a session, by ascending id.

use vstd::prelude::*;

verus! {

/// A thread that an agent started and still holds.
pub struct TrackedThread<T> {
    pub thread_id: u32,
    pub handle: T,
}

/// The threads of a session.
pub struct ThreadList<T> {
    threads: Vec<TrackedThread<T>>,
}

pub open spec fn has_thread<T>(threads: Seq<TrackedThread<T>>, id: u32) -> bool {
    exists|i: int| 0 <= i < threads.len() && (#[trigger] threads[i]).thread_id == id
}

pub open spec fn thread_index<T>(threads: Seq<TrackedThread<T>>, id: u32) -> int {
    choose|i: int| 0 <= i < threads.len() && (#[trigger] threads[i]).thread_id == id
}

impl<T> View for ThreadList<T> {
    type V = Map<u32, T>;

    closed spec fn view(&self) -> Map<u32, T> {
        Map::new(
            |id: u32| has_thread(self.threads@, id),
            |id: u32| self.threads@[thread_index(self.threads@, id)].handle,
        )
    }
}

impl<T> ThreadList<T> {
    /// Ids strictly ascend.
    pub closed spec fn wf(&self) -> bool {
        forall|i: int, j: int|
            0 <= i < j < self.threads@.len() ==> (#[trigger] self.threads@[i]).thread_id < (
            #[trigger] self.threads@[j]).thread_id
    }

    /// The ids in ascending order.
    pub closed spec fn ids(&self) -> Seq<u32> {
        self.threads@.map_values(|thread: TrackedThread<T>| thread.thread_id)
    }

    proof fn lemma_index(&self, i: int)
        requires
            self.wf(),
            0 <= i < self.threads@.len(),
        ensures
            self@.dom().contains(self.threads@[i].thread_id),
            self@[self.threads@[i].thread_id] == self.threads@[i].handle,
            thread_index(self.threads@, self.threads@[i].thread_id) == i,
    {
        let id = self.threads@[i].thread_id;
        let j = thread_index(self.threads@, id);
        assert(self.threads@[i].thread_id == id);
    }

    /// The ids are those of the threads, each once and in ascending order.
    pub proof fn lemma_ids(&self)
        requires
            self.wf(),
        ensures
            forall|id: u32| #[trigger] self@.dom().contains(id) <==> self.ids().contains(id),
            forall|i: int, j: int|
                0 <= i < j < self.ids().len() ==> #[trigger] self.ids()[i] < #[trigger] self.ids()[j],
            self@.dom().finite(),
            self@.dom().len() == self.ids().len(),
    {
        let ids = self.ids();
        assert forall|id: u32| #[trigger] self@.dom().contains(id) implies ids.contains(id) by {
            let i = thread_index(self.threads@, id);
            assert(ids[i] == id);
        }
        assert forall|id: u32| ids.contains(id) implies #[trigger] self@.dom().contains(id) by {
            let i = choose|i: int| 0 <= i < ids.len() && ids[i] == id;
            assert(self.threads@[i].thread_id == id);
        }
        assert forall|i: int, j: int| 0 <= i < j < ids.len() implies #[trigger] ids[i]
            < #[trigger] ids[j] by {
            assert(self.threads@[i].thread_id < self.threads@[j].thread_id);
        }
        assert(ids.no_duplicates());
        ids.unique_seq_to_set();
        assert(self@.dom() =~= ids.to_set());
    }

    /// No threads.
    pub fn new() -> (list: Self)
        ensures
            list.wf(),
            list@ == Map::<u32, T>::empty(),
            list.ids() == Seq::<u32>::empty(),
    {
        let list = ThreadList { threads: Vec::new() };
        proof {
            assert(list@ =~= Map::<u32, T>::empty());
            assert(list.ids() =~= Seq::<u32>::empty());
        }
        list
    }

    /// How many threads there are.
    pub fn len(&self) -> (len: usize)
        ensures
            len == self.ids().len(),
    {
        self.threads.len()
    }

    /// All ids in ascending order.
    pub fn all_ids(&self) -> (list: Vec<u32>)
        ensures
            list@ == self.ids(),
    {
        let mut list: Vec<u32> = Vec::new();
        let mut i: usize = 0;
        while i < self.threads.len()
            invariant
                i <= self.threads@.len(),
                list@ == self.ids().take(i as int),
            decreases self.threads@.len() - i,
        {
            proof {
                assert(self.ids().take(i + 1) =~= self.ids().take(i as int).push(
                    self.threads@[i as int].thread_id,
                ));
            }
            list.push(self.threads[i].thread_id);
            i += 1;
        }
        proof {
            assert(self.ids().take(i as int) =~= self.ids());
        }
        list
    }

    fn place_of(&self, id: u32) -> (place: (bool, usize))
        requires
            self.wf(),
        ensures
            place.1 <= self.threads@.len(),
            place.0 == self@.dom().contains(id),
            place.0 ==> place.1 < self.threads@.len() && self.threads@[place.1 as int].thread_id
                == id,
            !place.0 ==> forall|i: int|
                0 <= i < place.1 ==> (#[trigger] self.threads@[i]).thread_id < id,
            !place.0 ==> forall|i: int|
                place.1 <= i < self.threads@.len() ==> id < (#[trigger] self.threads@[i]).thread_id,
    {
        let mut i: usize = 0;
        while i < self.threads.len() && self.threads[i].thread_id < id
            invariant
                self.wf(),
                i <= self.threads@.len(),
                forall|j: int| 0 <= j < i ==> (#[trigger] self.threads@[j]).thread_id < id,
            decreases self.threads@.len() - i,
        {
            i += 1;
        }
        if i < self.threads.len() && self.threads[i].thread_id == id {
            proof {
                self.lemma_index(i as int);
            }
            return (true, i);
        }
        proof {
            if has_thread(self.threads@, id) {
                let j = thread_index(self.threads@, id);
                assert(self.threads@[j].thread_id == id);
                if j > i {
                    assert(self.threads@[i as int].thread_id < self.threads@[j].thread_id);
                }
            }
            assert forall|j: int| i <= j < self.threads@.len() implies id < (
            #[trigger] self.threads@[j]).thread_id by {
                if j > i {
                    assert(self.threads@[i as int].thread_id < self.threads@[j].thread_id);
                }
            }
        }
        (false, i)
    }

    /// The handle of a thread.
    pub fn get(&self, id: u32) -> (handle: Option<&T>)
        requires
            self.wf(),
        ensures
            handle is Some <==> self@.dom().contains(id),
            handle matches Some(held) ==> *held == self@[id],
    {
        let (found, place) = self.place_of(id);
        if found {
            proof {
                self.lemma_index(place as int);
            }
            Some(&self.threads[place].handle)
        } else {
            None
        }
    }

    /// Takes a thread in, in place of an earlier one of the same id.
    pub fn put(&mut self, id: u32, handle: T)
        requires
            old(self).wf(),
        ensures
            final(self).wf(),
            final(self)@ == old(self)@.insert(id, handle),
    {
        let (found, place) = self.place_of(id);
        let ghost before = *self;
        let thread = TrackedThread { thread_id: id, handle };
        if found {
            let _ = self.threads.remove(place);
            self.threads.insert(place, thread);
            proof {
                assert(self.threads@ =~= before.threads@.update(place as int, thread));
                assert forall|i: int, j: int| 0 <= i < j < self.threads@.len() implies (
                #[trigger] self.threads@[i]).thread_id < (
                #[trigger] self.threads@[j]).thread_id by {
                    assert(before.threads@[i].thread_id < before.threads@[j].thread_id);
                }
                assert forall|k: u32| self@.dom().contains(k) == before@.insert(
                    id,
                    handle,
                ).dom().contains(k) by {
                    if has_thread(self.threads@, k) {
                        let i = thread_index(self.threads@, k);
                        assert(before.threads@[i].thread_id == k);
                    }
                    if has_thread(before.threads@, k) {
                        let i = thread_index(before.threads@, k);
                        assert(self.threads@[i].thread_id == k);
                    }
                }
                assert forall|k: u32| self@.dom().contains(k) implies self@[k] == before@.insert(
                    id,
                    handle,
                )[k] by {
                    let i = thread_index(self.threads@, k);
                    self.lemma_index(i);
                    before.lemma_index(i);
                    before.lemma_index(place as int);
                }
                assert(self@ =~= before@.insert(id, handle));
            }
        } else {
            self.threads.insert(place, thread);
            proof {
                let old_index = |i: int|
                    if i < place {
                        i
                    } else {
                        i - 1
                    };
                let new_index = |i: int|
                    if i < place {
                        i
                    } else {
                        i + 1
                    };
                assert forall|i: int| 0 <= i < self.threads@.len() && i != place implies #[trigger] self.threads@[i]
                    == before.threads@[old_index(i)] by {}
                assert(self.threads@[place as int] == thread);
                assert forall|i: int, j: int| 0 <= i < j < self.threads@.len() implies (
                #[trigger] self.threads@[i]).thread_id < (
                #[trigger] self.threads@[j]).thread_id by {
                    if i != place && j != place {
                        assert(before.threads@[old_index(i)].thread_id
                            < before.threads@[old_index(j)].thread_id);
                    }
                }
                assert forall|k: u32| self@.dom().contains(k) == before@.insert(
                    id,
                    handle,
                ).dom().contains(k) by {
                    if has_thread(self.threads@, k) {
                        let i = thread_index(self.threads@, k);
                        if i != place {
                            assert(before.threads@[old_index(i)].thread_id == k);
                        }
                    }
                    if has_thread(before.threads@, k) {
                        let i = thread_index(before.threads@, k);
                        assert(self.threads@[new_index(i)] == before.threads@[i]);
                    }
                }
                assert forall|k: u32| self@.dom().contains(k) implies self@[k] == before@.insert(
                    id,
                    handle,
                )[k] by {
                    let i = thread_index(self.threads@, k);
                    self.lemma_index(i);
                    self.lemma_index(place as int);
                    if i != place {
                        before.lemma_index(old_index(i));
                    }
                }
                assert(self@ =~= before@.insert(id, handle));
            }
        }
    }

    /// Lets a thread go.
    pub fn remove(&mut self, id: u32)
        requires
            old(self).wf(),
        ensures
            final(self).wf(),
            final(self)@ == old(self)@.remove(id),
    {
        let (found, place) = self.place_of(id);
        let ghost before = *self;
        if !found {
            proof {
                assert(self@.remove(id) =~= self@);
            }
            return ;
        }
        let _ = self.threads.remove(place);
        proof {
            let old_index = |i: int|
                if i < place {
                    i
                } else {
                    i + 1
                };
            let new_index = |i: int|
                if i < place {
                    i
                } else {
                    i - 1
                };
            assert forall|i: int| 0 <= i < self.threads@.len() implies #[trigger] self.threads@[i]
                == before.threads@[old_index(i)] by {}
            assert forall|i: int, j: int| 0 <= i < j < self.threads@.len() implies (
            #[trigger] self.threads@[i]).thread_id < (#[trigger] self.threads@[j]).thread_id by {
                assert(before.threads@[old_index(i)].thread_id
                    < before.threads@[old_index(j)].thread_id);
            }
            before.lemma_index(place as int);
            assert forall|k: u32| self@.dom().contains(k) == before@.remove(id).dom().contains(k) by {
                if has_thread(self.threads@, k) {
                    let i = thread_index(self.threads@, k);
                    before.lemma_index(old_index(i));
                }
                if has_thread(before.threads@, k) && k != id {
                    let i = thread_index(before.threads@, k);
                    assert(self.threads@[new_index(i)] == before.threads@[i]);
                }
            }
            assert forall|k: u32| self@.dom().contains(k) implies self@[k] == before@.remove(
                id,
            )[k] by {
                let i = thread_index(self.threads@, k);
                self.lemma_index(i);
                before.lemma_index(old_index(i));
            }
            assert(self@ =~= before@.remove(id));
        }
    }
}

}
