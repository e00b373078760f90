//! A shared list of client numbers, in increasing order and each once.

use std::sync::Arc;

use vstd::prelude::*;

use crate::protocol::share;

verus! {

/// Numbers in strictly increasing order.
pub open spec fn ascending(ids: Seq<u64>) -> bool {
    forall|i: int, j: int| 0 <= i < j < ids.len() ==> (#[trigger] ids[i]) < (#[trigger] ids[j])
}

/// A shared list of client numbers, in increasing order and each once.
pub struct IdList {
    ids: Arc<Vec<u64>>,
}

impl View for IdList {
    type V = Set<u64>;

    closed spec fn view(&self) -> Set<u64> {
        self.ids@.to_set()
    }
}

impl IdList {
    #[verifier::type_invariant]
    spec fn ordered(&self) -> bool {
        ascending(self.ids@)
    }

    /// The empty list.
    pub fn new() -> (list: IdList)
        ensures
            list@ == Set::<u64>::empty(),
    {
        let list = IdList { ids: Arc::new(Vec::new()) };
        assert(list@ =~= Set::<u64>::empty());
        list
    }

    /// The same list again.
    pub fn copy(&self) -> (copy: IdList)
        ensures
            copy == *self,
    {
        proof {
            use_type_invariant(self);
        }
        IdList { ids: share(&self.ids) }
    }

    /// The number of entries.
    pub fn len(&self) -> (count: usize)
        ensures
            self@.finite(),
            count == self@.len(),
    {
        proof {
            use_type_invariant(self);
            assert(self.ids@.no_duplicates());
            self.ids@.unique_seq_to_set();
        }
        self.ids.len()
    }

    /// Whether the list is empty.
    pub fn is_empty(&self) -> (empty: bool)
        ensures
            empty == (self@ == Set::<u64>::empty()),
    {
        let count = self.ids.len();
        proof {
            if count == 0 {
                assert(self@ =~= Set::<u64>::empty());
            } else {
                assert(self.ids@.contains(self.ids@[0]));
                assert(self@.contains(self.ids@[0]));
            }
        }
        count == 0
    }

    /// Whether a number is in the list.
    pub fn contains(&self, id: u64) -> (present: bool)
        ensures
            present == self@.contains(id),
    {
        let mut i: usize = 0;
        while i < self.ids.len()
            invariant
                i <= self.ids@.len(),
                forall|j: int| 0 <= j < i ==> self.ids@[j] != id,
            decreases self.ids@.len() - i,
        {
            if self.ids[i] == id {
                assert(self.ids@.contains(self.ids@[i as int]));
                return true;
            }
            i += 1;
        }
        false
    }

    /// The list with one more number.
    pub fn with(&self, id: u64) -> (list: IdList)
        ensures
            list@ == self@.insert(id),
    {
        proof {
            use_type_invariant(self);
        }
        let ghost before = self.ids@;
        let mut ids: Vec<u64> = Vec::new();
        let mut i: usize = 0;
        while i < self.ids.len() && self.ids[i] < id
            invariant
                i <= self.ids@.len(),
                before == self.ids@,
                ids@ == before.take(i as int),
                forall|j: int| 0 <= j < i ==> before[j] < id,
            decreases self.ids@.len() - i,
        {
            ids.push(self.ids[i]);
            assert(before.take(i + 1) =~= before.take(i as int).push(before[i as int]));
            i += 1;
        }
        if i < self.ids.len() && self.ids[i] == id {
            assert(before.contains(before[i as int]));
            assert(self@.insert(id) =~= self@);
            return self.copy();
        }
        let at: usize = i;
        ids.push(id);
        while i < self.ids.len()
            invariant
                at <= i <= self.ids@.len(),
                before == self.ids@,
                ids@ == before.take(at as int).push(id) + before.subrange(at as int, i as int),
            decreases self.ids@.len() - i,
        {
            ids.push(self.ids[i]);
            assert(before.subrange(at as int, i + 1) =~= before.subrange(at as int, i as int).push(before[i as int]));
            assert(ids@ =~= before.take(at as int).push(id) + before.subrange(at as int, i + 1));
            i += 1;
        }
        proof {
            assert(ids@ =~= before.insert(at as int, id));
            assert forall|x: int, y: int| 0 <= x < y < ids@.len() implies (#[trigger] ids@[x]) < (
            #[trigger] ids@[y]) by {
                let a = if x < at {
                    x
                } else {
                    x - 1
                };
                let b = if y < at {
                    y
                } else {
                    y - 1
                };
                if x != at && y != at {
                    assert(before[a] < before[b]);
                }
                if x == at {
                    assert(before[b] >= before[at as int]);
                }
            }
            assert forall|k: u64| ids@.to_set().contains(k) == before.to_set().insert(id).contains(k) by {
                if ids@.contains(k) && k != id {
                    let x = ids@.index_of(k);
                    if x < at {
                        assert(before[x] == k);
                    } else {
                        assert(before[x - 1] == k);
                    }
                    assert(before.contains(k));
                }
                if before.contains(k) {
                    let x = before.index_of(k);
                    if x < at {
                        assert(ids@[x] == k);
                    } else {
                        assert(ids@[x + 1] == k);
                    }
                    assert(ids@.contains(k));
                }
                assert(ids@[at as int] == id);
                assert(ids@.contains(id));
            }
            assert(ids@.to_set() =~= before.to_set().insert(id));
        }
        IdList { ids: Arc::new(ids) }
    }

    /// The list with the numbers of another one.
    pub fn union(&self, with: &IdList) -> (list: IdList)
        ensures
            list@ == self@.union(with@),
    {
        let mut list = self.copy();
        let mut i: usize = 0;
        while i < with.ids.len()
            invariant
                i <= with.ids@.len(),
                list@ == self@.union(with.ids@.take(i as int).to_set()),
            decreases with.ids@.len() - i,
        {
            let id = with.ids[i];
            list = list.with(id);
            proof {
                let a = with.ids@.take(i as int);
                let b = with.ids@.take(i + 1);
                assert(b =~= a.push(id));
                assert forall|k: u64| b.to_set().contains(k) == a.to_set().insert(id).contains(k) by {
                    if b.contains(k) && k != id {
                        let x = b.index_of(k);
                        assert(a[x] == k);
                        assert(a.contains(k));
                    }
                    if a.contains(k) {
                        let x = a.index_of(k);
                        assert(b[x] == k);
                        assert(b.contains(k));
                    }
                    assert(b[i as int] == id);
                    assert(b.contains(id));
                }
                assert(b.to_set() =~= a.to_set().insert(id));
                assert(list@ =~= self@.union(b.to_set()));
            }
            i += 1;
        }
        assert(with.ids@.take(with.ids@.len() as int) =~= with.ids@);
        proof {
            if with.ids@.len() == 0 {
                assert(list@ =~= self@.union(with@));
            }
        }
        list
    }

    /// Whether all numbers of another list are in this one.
    pub fn covers(&self, with: &IdList) -> (covered: bool)
        ensures
            covered == with@.subset_of(self@),
    {
        let mut i: usize = 0;
        while i < with.ids.len()
            invariant
                i <= with.ids@.len(),
                forall|j: int| 0 <= j < i ==> self@.contains(#[trigger] with.ids@[j]),
            decreases with.ids@.len() - i,
        {
            if !self.contains(with.ids[i]) {
                assert(with.ids@.contains(with.ids@[i as int]));
                assert(with@.contains(with.ids@[i as int]));
                return false;
            }
            i += 1;
        }
        assert forall|k: u64| with@.contains(k) implies self@.contains(k) by {
            assert(with.ids@.contains(k));
            let x = with.ids@.index_of(k);
            assert(with.ids@[x] == k);
        }
        true
    }

    /// The numbers in order.
    pub fn to_vec(&self) -> (list: Vec<u64>)
        ensures
            list@.to_set() == self@,
            ascending(list@),
    {
        proof {
            use_type_invariant(self);
        }
        let mut list: Vec<u64> = Vec::new();
        let mut i: usize = 0;
        while i < self.ids.len()
            invariant
                i <= self.ids@.len(),
                list@ == self.ids@.take(i as int),
            decreases self.ids@.len() - i,
        {
            list.push(self.ids[i]);
            assert(self.ids@.take(i + 1) =~= self.ids@.take(i as int).push(self.ids@[i as int]));
            i += 1;
        }
        assert(self.ids@.take(self.ids@.len() as int) =~= self.ids@);
        list
    }
}

} // verus!
