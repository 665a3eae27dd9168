//! The physical frames that hold page tables, each an array of raw entries,
//! found by the physical address of the frame.
use vstd::prelude::*;

verus! {

/// Number of entries in one page table.
pub const PAGE_TABLE_ENTRIES: usize = 1024;

/// Page-table frames, each found by its physical address.
pub struct TableMemory {
    frames: Vec<usize>,
    tables: Vec<Vec<usize>>,
}

/// Index at which `frames` holds the address `a`.
pub open spec fn frame_index(frames: Seq<usize>, a: usize) -> int {
    choose|i: int| 0 <= i < frames.len() && frames[i] == a
}

impl TableMemory {
    pub closed spec fn wf(&self) -> bool {
        &&& self.frames@.len() == self.tables@.len()
        &&& forall|i: int| 0 <= i < self.tables@.len() ==> #[trigger] self.tables@[i]@.len() == 1024
        &&& forall|i: int, j: int|
            0 <= i < self.frames@.len() && 0 <= j < self.frames@.len() && i != j ==> #[trigger] self.frames@[i]
                != #[trigger] self.frames@[j]
    }

    /// Each table frame's address, with its entries.
    pub closed spec fn view(&self) -> Map<usize, Seq<usize>> {
        Map::new(
            |a: usize| self.frames@.contains(a),
            |a: usize| self.tables@[frame_index(self.frames@, a)]@,
        )
    }

    proof fn lemma_index(&self, i: int)
        requires
            self.wf(),
            0 <= i < self.frames@.len(),
        ensures
            frame_index(self.frames@, self.frames@[i]) == i,
            self.view().contains_key(self.frames@[i]),
            self.view()[self.frames@[i]] == self.tables@[i]@,
    {
        let a = self.frames@[i];
        assert(self.frames@.contains(a));
        let k = frame_index(self.frames@, a);
        assert(0 <= k < self.frames@.len() && self.frames@[k] == a);
    }

    /// No tables.
    pub fn new() -> (r: TableMemory)
        ensures
            r.wf(),
            r.view() == Map::<usize, Seq<usize>>::empty(),
    {
        let r = TableMemory { frames: Vec::new(), tables: Vec::new() };
        proof {
            assert(r.view() =~= Map::<usize, Seq<usize>>::empty());
        }
        r
    }

    /// Every table has exactly one entry per slot.
    pub proof fn lemma_tables_full(&self, a: usize)
        requires
            self.wf(),
            self.view().contains_key(a),
        ensures
            self.view()[a].len() == 1024,
    {
        let k = frame_index(self.frames@, a);
        assert(self.frames@.contains(a));
        assert(0 <= k < self.frames@.len());
    }

    fn find(&self, a: usize) -> (r: Option<usize>)
        requires
            self.wf(),
        ensures
            r matches Some(i) ==> i < self.frames@.len() && self.frames@[i as int] == a,
            r is None ==> !self.view().contains_key(a),
    {
        let mut i: usize = 0;
        while i < self.frames.len()
            invariant
                i <= self.frames@.len(),
                forall|k: int| 0 <= k < i ==> self.frames@[k] != a,
            decreases self.frames@.len() - i,
        {
            if self.frames[i] == a {
                return Some(i);
            }
            i = i + 1;
        }
        None
    }

    /// Whether a table is held at `a`.
    pub fn contains(&self, a: usize) -> (r: bool)
        requires
            self.wf(),
        ensures
            r == self.view().contains_key(a),
    {
        match self.find(a) {
            Some(i) => {
                proof {
                    self.lemma_index(i as int);
                }
                true
            },
            None => false,
        }
    }

    /// The entry at `index` of the table at `a`.
    pub fn read(&self, a: usize, index: usize) -> (r: usize)
        requires
            self.wf(),
            self.view().contains_key(a),
            index < 1024,
        ensures
            r == self.view()[a][index as int],
    {
        let i = self.find(a).unwrap();
        proof {
            self.lemma_index(i as int);
        }
        self.tables[i][index]
    }

    /// Stores `value` at `index` of the table at `a`.
    pub fn write(&mut self, a: usize, index: usize, value: usize)
        requires
            old(self).wf(),
            old(self).view().contains_key(a),
            index < 1024,
        ensures
            final(self).wf(),
            final(self).view() == old(self).view().insert(a, old(self).view()[a].update(
                index as int,
                value,
            )),
    {
        let i = self.find(a).unwrap();
        proof {
            self.lemma_index(i as int);
        }
        let ghost before = *self;
        self.tables[i].set(index, value);
        proof {
            assert forall|k: int| 0 <= k < self.tables@.len() implies #[trigger] self.tables@[k]@.len()
                == 1024 by {
                if k != i {
                    assert(self.tables@[k] == before.tables@[k]);
                }
            }
            assert forall|b: usize| #[trigger] self.view().contains_key(b) implies self.view()[b]
                == before.view().insert(a, before.view()[a].update(index as int, value))[b] by {
                let k = choose|k: int| 0 <= k < self.frames@.len() && self.frames@[k] == b;
                self.lemma_index(k);
                before.lemma_index(k);
            }
            assert(self.view() =~= before.view().insert(
                a,
                before.view()[a].update(index as int, value),
            ));
        }
    }

    /// Adds an empty table at `a`.
    pub fn insert_zeroed(&mut self, a: usize)
        requires
            old(self).wf(),
            !old(self).view().contains_key(a),
        ensures
            final(self).wf(),
            final(self).view() == old(self).view().insert(a, Seq::new(1024, |i: int| 0usize)),
    {
        let mut t: Vec<usize> = Vec::new();
        let mut k: usize = 0;
        while k < PAGE_TABLE_ENTRIES
            invariant
                k <= 1024,
                t@ == Seq::new(k as nat, |i: int| 0usize),
            decreases 1024 - k,
        {
            t.push(0);
            k = k + 1;
            proof {
                assert(t@ =~= Seq::new(k as nat, |i: int| 0usize));
            }
        }
        let ghost before = *self;
        self.frames.push(a);
        self.tables.push(t);
        proof {
            let n = before.frames@.len() as int;
            assert(self.frames@[n] == a);
            assert forall|k: int| 0 <= k < self.tables@.len() implies #[trigger] self.tables@[k]@.len()
                == 1024 by {
                if k < n {
                    assert(self.tables@[k] == before.tables@[k]);
                }
            }
            assert forall|x: int, y: int|
                0 <= x < self.frames@.len() && 0 <= y < self.frames@.len() && x != y implies #[trigger] self.frames@[x]
                    != #[trigger] self.frames@[y] by {
                if x < n && y < n {
                } else if x < n {
                    assert(before.frames@[x] != a) by {
                        if before.frames@[x] == a {
                            assert(before.frames@.contains(a));
                        }
                    }
                } else {
                    assert(before.frames@[y] != a) by {
                        if before.frames@[y] == a {
                            assert(before.frames@.contains(a));
                        }
                    }
                }
            }
            self.lemma_index(n);
            assert forall|b: usize| #[trigger] self.view().contains_key(b) implies self.view()[b]
                == before.view().insert(a, Seq::new(1024, |i: int| 0usize))[b] by {
                let k = choose|k: int| 0 <= k < self.frames@.len() && self.frames@[k] == b;
                self.lemma_index(k);
                if k < n {
                    before.lemma_index(k);
                }
            }
            assert forall|b: usize| #[trigger] before.view().contains_key(b) implies self.view().contains_key(b) by {
                let k = choose|k: int| 0 <= k < before.frames@.len() && before.frames@[k] == b;
                assert(self.frames@[k] == b);
                assert(self.frames@.contains(b));
            }
            assert(self.view() =~= before.view().insert(a, Seq::new(1024, |i: int| 0usize)));
        }
    }

    /// Drops the table at `a`.
    pub fn remove(&mut self, a: usize)
        requires
            old(self).wf(),
            old(self).view().contains_key(a),
        ensures
            final(self).wf(),
            final(self).view() == old(self).view().remove(a),
    {
        let i = self.find(a).unwrap();
        let ghost before = *self;
        self.frames.remove(i);
        self.tables.remove(i);
        proof {
            let ii = i as int;
            assert forall|k: int| 0 <= k < self.tables@.len() implies #[trigger] self.tables@[k]@.len()
                == 1024 by {
                let ok = if k < ii { k } else { k + 1 };
                assert(self.tables@[k] == before.tables@[ok]);
            }
            assert forall|x: int, y: int|
                0 <= x < self.frames@.len() && 0 <= y < self.frames@.len() && x != y implies #[trigger] self.frames@[x]
                    != #[trigger] self.frames@[y] by {
                let ox = if x < ii { x } else { x + 1 };
                let oy = if y < ii { y } else { y + 1 };
                assert(self.frames@[x] == before.frames@[ox]);
                assert(self.frames@[y] == before.frames@[oy]);
            }
            assert forall|b: usize| #[trigger] self.view().contains_key(b) implies self.view()[b]
                == before.view()[b] && b != a by {
                let k = choose|k: int| 0 <= k < self.frames@.len() && self.frames@[k] == b;
                self.lemma_index(k);
                let ok = if k < ii { k } else { k + 1 };
                assert(self.frames@[k] == before.frames@[ok]);
                assert(self.tables@[k] == before.tables@[ok]);
                before.lemma_index(ok);
            }
            assert forall|b: usize| #[trigger] before.view().contains_key(b) && b != a implies self.view().contains_key(b) by {
                let k = choose|k: int| 0 <= k < before.frames@.len() && before.frames@[k] == b;
                before.lemma_index(ii);
                assert(k != ii);
                let nk = if k < ii { k } else { k - 1 };
                assert(self.frames@[nk] == b);
                assert(self.frames@.contains(b));
            }
            assert(self.view() =~= before.view().remove(a));
        }
    }
}

} // verus!
