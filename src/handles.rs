use vstd::prelude::*;

verus! {

/// Live values keyed by integer tickets. A ticket is never issued twice, so
/// one that was released, or never issued, is recognised as stale instead of
/// reaching a value that is gone.
pub struct HandleTable<T> {
    ids: Vec<u64>,
    items: Vec<T>,
    next: u64,
}

impl<T> HandleTable<T> {
    /// The tickets are distinct, none is 0, each is below the next one to be
    /// issued, and each has its value.
    pub closed spec fn wf(&self) -> bool {
        &&& self.ids@.len() == self.items@.len()
        &&& self.ids@.no_duplicates()
        &&& self.next >= 1
        &&& forall|i: int| 0 <= i < self.ids@.len() ==> 1 <= #[trigger] self.ids@[i] < self.next
    }

    /// Ticket 0 is never live, so it can stand for "no client".
    pub proof fn lemma_zero_never_live(&self)
        requires
            self.wf(),
        ensures
            !self@.contains_key(0),
            self.next_ticket() >= 1,
    {
    }

    spec fn index_of(&self, id: u64) -> int {
        choose|i: int| 0 <= i < self.ids@.len() && self.ids@[i] == id
    }

    /// The live values, by ticket.
    pub closed spec fn view(&self) -> Map<u64, T> {
        Map::new(|id: u64| self.ids@.contains(id), |id: u64| self.items@[self.index_of(id)])
    }

    /// The ticket that the next `insert` issues; every ticket issued so far
    /// is below it.
    pub closed spec fn next_ticket(&self) -> u64 {
        self.next
    }

    proof fn lemma_index_of(&self, i: int)
        requires
            self.wf(),
            0 <= i < self.ids@.len(),
        ensures
            self.index_of(self.ids@[i]) == i,
    {
        let id = self.ids@[i];
        assert(exists|j: int| 0 <= j < self.ids@.len() && self.ids@[j] == id);
    }

    /// An empty table.
    pub fn new() -> (r: Self)
        ensures
            r.wf(),
            r@ == Map::<u64, T>::empty(),
            r.next_ticket() == 1,
    {
        let r = HandleTable { ids: Vec::new(), items: Vec::new(), next: 1 };
        assert(r@ =~= Map::<u64, T>::empty());
        r
    }

    /// Stores `item` under a fresh ticket and returns the ticket; `None`,
    /// and the table unchanged, once every ticket has been issued.
    pub fn insert(&mut self, item: T) -> (r: Option<u64>)
        requires
            old(self).wf(),
        ensures
            final(self).wf(),
            r is None <==> old(self).next_ticket() == u64::MAX,
            match r {
                Some(id) => id != 0 && id == old(self).next_ticket() && !old(self)@.contains_key(id)
                    && final(self)@ == old(self)@.insert(id, item)
                    && final(self).next_ticket() == id + 1,
                None => final(self)@ == old(self)@ && final(self).next_ticket()
                    == old(self).next_ticket(),
            },
    {
        if self.next == u64::MAX {
            return None;
        }
        let id = self.next;
        let ghost before = *self;
        self.ids.push(id);
        self.items.push(item);
        self.next = id + 1;
        proof {
            assert(!before.ids@.contains(id));
            assert forall|i: int, j: int|
                0 <= i < self.ids@.len() && 0 <= j < self.ids@.len() && i != j implies self.ids@[i]
                != self.ids@[j] by {}
            let n = before.ids@.len() as int;
            self.lemma_index_of(n);
            assert forall|k: u64| #[trigger] before@.contains_key(k) implies self@[k] == before@[k] by {
                let i = before.index_of(k);
                before.lemma_index_of(i);
                assert(self.ids@[i] == k);
                self.lemma_index_of(i);
            }
            assert forall|k: u64| self@.contains_key(k) <==> before@.insert(id, item).contains_key(k) by {
                if self.ids@.contains(k) && k != id {
                    let j = choose|j: int| 0 <= j < self.ids@.len() && self.ids@[j] == k;
                    assert(before.ids@[j] == k);
                }
                if before.ids@.contains(k) {
                    let j = choose|j: int| 0 <= j < before.ids@.len() && before.ids@[j] == k;
                    assert(self.ids@[j] == k);
                }
                if k == id {
                    assert(self.ids@[n] == id);
                }
            }
            assert(self@ =~= before@.insert(id, item));
        }
        Some(id)
    }

    fn position(&self, id: u64) -> (r: Option<usize>)
        requires
            self.wf(),
        ensures
            match r {
                Some(i) => i < self.ids@.len() && self.ids@[i as int] == id,
                None => !self.ids@.contains(id),
            },
    {
        let mut i: usize = 0;
        while i < self.ids.len()
            invariant
                i <= self.ids@.len(),
                forall|j: int| 0 <= j < i ==> self.ids@[j] != id,
            decreases self.ids@.len() - i,
        {
            if self.ids[i] == id {
                return Some(i);
            }
            i = i + 1;
        }
        None
    }

    /// The value under `id`, or `None` when the ticket is stale.
    pub fn get(&self, id: u64) -> (r: Option<&T>)
        requires
            self.wf(),
        ensures
            match r {
                Some(x) => self@.contains_key(id) && *x == self@[id],
                None => !self@.contains_key(id),
            },
    {
        match self.position(id) {
            Some(i) => {
                proof {
                    self.lemma_index_of(i as int);
                }
                Some(&self.items[i])
            },
            None => None,
        }
    }

    /// Takes the value under `id` out of the table; `None`, and the table
    /// unchanged, when the ticket is stale.
    pub fn remove(&mut self, id: u64) -> (r: Option<T>)
        requires
            old(self).wf(),
        ensures
            final(self).wf(),
            final(self)@ == old(self)@.remove(id),
            final(self).next_ticket() == old(self).next_ticket(),
            match r {
                Some(x) => old(self)@.contains_key(id) && x == old(self)@[id],
                None => !old(self)@.contains_key(id),
            },
    {
        match self.position(id) {
            None => {
                assert(self@ =~= self@.remove(id));
                None
            },
            Some(p) => {
                let ghost before = *self;
                proof {
                    before.lemma_index_of(p as int);
                }
                self.ids.remove(p);
                let x = self.items.remove(p);
                proof {
                    assert forall|i: int, j: int|
                        0 <= i < self.ids@.len() && 0 <= j < self.ids@.len() && i != j implies self.ids@[i]
                        != self.ids@[j] by {
                        let oi = if i < p { i } else { i + 1 };
                        assert(self.ids@[i] == before.ids@[oi]);
                        assert(self.ids@[j] == before.ids@[if j < p { j } else { j + 1 }]);
                    }
                    assert forall|k: u64| self@.contains_key(k) <==> before@.remove(id).contains_key(k) by {
                        if self.ids@.contains(k) {
                            let j = choose|j: int| 0 <= j < self.ids@.len() && self.ids@[j] == k;
                            let oj = if j < p { j } else { j + 1 };
                            assert(before.ids@[oj] == k);
                            assert(oj != p);
                        }
                        if before.ids@.contains(k) && k != id {
                            let oj = choose|j: int| 0 <= j < before.ids@.len() && before.ids@[j] == k;
                            assert(oj != p);
                            let j = if oj < p { oj } else { oj - 1 };
                            assert(self.ids@[j] == k);
                        }
                    }
                    assert forall|k: u64| #[trigger] self@.contains_key(k) implies self@[k] == before@[k] by {
                        let j = self.index_of(k);
                        self.lemma_index_of(j);
                        let oj = if j < p { j } else { j + 1 };
                        assert(before.ids@[oj] == k);
                        before.lemma_index_of(oj);
                    }
                    assert(self@ =~= before@.remove(id));
                }
                Some(x)
            },
        }
    }

    /// How many values are live.
    pub fn len(&self) -> (r: usize)
        requires
            self.wf(),
        ensures
            r == self@.len(),
    {
        proof {
            self.ids@.unique_seq_to_set();
            assert(self@.dom() =~= self.ids@.to_set());
        }
        self.ids.len()
    }
}

/// Releasing a ticket right after it was issued leaves the table's live
/// values, and so their count, as they were before: nothing is held on.
pub proof fn lemma_release_restores<T>(before: Map<u64, T>, id: u64, item: T)
    requires
        !before.contains_key(id),
    ensures
        before.insert(id, item).remove(id) == before,
        before.dom().finite() ==> before.insert(id, item).remove(id).len() == before.len(),
{
    assert(before.insert(id, item).remove(id) =~= before);
}

} // verus!
