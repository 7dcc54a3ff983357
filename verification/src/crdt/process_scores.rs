use vstd::prelude::*;

verus! {

/// The number a process has, 0 when it has none.
pub open spec fn score_of(scores: Map<u32, nat>, p: u32) -> nat {
    if scores.contains_key(p) {
        scores[p]
    } else {
        0
    }
}

/// A number per process, 0 for the processes never set.
pub struct ProcessScores {
    entries: Vec<(u32, u32)>,
}

impl ProcessScores {
    pub closed spec fn view_map(&self) -> Map<u32, nat> {
        Map::new(
            |p: u32| exists|i: int| 0 <= i < self.entries@.len() && self.entries@[i].0 == p,
            |p: u32| self.entries@[choose|i: int| 0 <= i < self.entries@.len() && self.entries@[i].0 == p].1 as nat,
        )
    }

    pub closed spec fn wf(&self) -> bool {
        forall|i: int, j: int| 0 <= i < j < self.entries@.len() ==> self.entries@[i].0 != self.entries@[j].0
    }

    proof fn lemma_entry(&self, i: int)
        requires
            self.wf(),
            0 <= i < self.entries@.len(),
        ensures
            self.view_map().contains_key(self.entries@[i].0),
            self.view_map()[self.entries@[i].0] == self.entries@[i].1 as nat,
    {
        let p = self.entries@[i].0;
        assert(self.view_map().contains_key(p));
        let j = choose|j: int| 0 <= j < self.entries@.len() && self.entries@[j].0 == p;
        if j < i {
        } else if i < j {
        }
    }

    pub fn new() -> (r: ProcessScores)
        ensures
            r.wf(),
            r.view_map() == Map::<u32, nat>::empty(),
    {
        let r = ProcessScores { entries: Vec::new() };
        assert(r.view_map() =~= Map::<u32, nat>::empty());
        r
    }

    fn find(&self, p: u32) -> (r: Option<usize>)
        ensures
            match r {
                Some(i) => i < self.entries@.len() && self.entries@[i as int].0 == p,
                None => !self.view_map().contains_key(p),
            },
    {
        let mut i: usize = 0;
        while i < self.entries.len()
            invariant
                0 <= i <= self.entries@.len(),
                forall|j: int| 0 <= j < i ==> self.entries@[j].0 != p,
            decreases self.entries@.len() - i,
        {
            if self.entries[i].0 == p {
                return Some(i);
            }
            i = i + 1;
        }
        None
    }

    /// The number of `p`.
    pub fn get(&self, p: u32) -> (r: u32)
        requires
            self.wf(),
        ensures
            r as nat == score_of(self.view_map(), p),
    {
        match self.find(p) {
            Some(i) => {
                proof {
                    self.lemma_entry(i as int);
                }
                self.entries[i].1
            },
            None => 0,
        }
    }

    /// Sets the number of `p` to `v`.
    pub fn set(&mut self, p: u32, v: u32)
        requires
            old(self).wf(),
        ensures
            final(self).wf(),
            final(self).view_map() == old(self).view_map().insert(p, v as nat),
    {
        let ghost old_self = *self;
        match self.find(p) {
            Some(i) => {
                self.entries.set(i, (p, v));
                proof {
                    assert forall|q: u32| #[trigger] self.view_map().contains_key(q) <==> old_self.view_map().insert(p, v as nat).contains_key(q) by {
                        if self.view_map().contains_key(q) {
                            let k = choose|k: int| 0 <= k < self.entries@.len() && self.entries@[k].0 == q;
                            if q != p {
                                assert(old_self.entries@[k].0 == q);
                            }
                        }
                        if old_self.view_map().contains_key(q) {
                            let k = choose|k: int| 0 <= k < old_self.entries@.len() && old_self.entries@[k].0 == q;
                            assert(self.entries@[k].0 == q);
                        }
                        if q == p {
                            assert(self.entries@[i as int].0 == q);
                        }
                    }
                    assert forall|q: u32| #[trigger] self.view_map().contains_key(q) implies self.view_map()[q] == old_self.view_map().insert(p, v as nat)[q] by {
                        let k = choose|k: int| 0 <= k < self.entries@.len() && self.entries@[k].0 == q;
                        self.lemma_entry(k);
                        if q != p {
                            old_self.lemma_entry(k);
                        }
                    }
                    assert(self.view_map() =~= old_self.view_map().insert(p, v as nat));
                }
            },
            None => {
                self.entries.push((p, v));
                proof {
                    let n = old_self.entries@.len() as int;
                    assert(self.wf());
                    assert forall|q: u32| #[trigger] self.view_map().contains_key(q) <==> old_self.view_map().insert(p, v as nat).contains_key(q) by {
                        if self.view_map().contains_key(q) {
                            let k = choose|k: int| 0 <= k < self.entries@.len() && self.entries@[k].0 == q;
                            if q != p {
                                assert(old_self.entries@[k].0 == q);
                            }
                        }
                        if old_self.view_map().contains_key(q) {
                            let k = choose|k: int| 0 <= k < old_self.entries@.len() && old_self.entries@[k].0 == q;
                            assert(self.entries@[k].0 == q);
                        }
                        if q == p {
                            assert(self.entries@[n].0 == q);
                        }
                    }
                    assert forall|q: u32| #[trigger] self.view_map().contains_key(q) implies self.view_map()[q] == old_self.view_map().insert(p, v as nat)[q] by {
                        let k = choose|k: int| 0 <= k < self.entries@.len() && self.entries@[k].0 == q;
                        self.lemma_entry(k);
                        if q != p {
                            old_self.lemma_entry(k);
                        }
                    }
                    assert(self.view_map() =~= old_self.view_map().insert(p, v as nat));
                }
            },
        }
    }
}

} // verus!
