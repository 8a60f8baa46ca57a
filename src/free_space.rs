//! Free-space index of one class of pages: page ids ordered by free bytes.
//!
//! Candidate selection is smallest fit: among the pages with at least the
//! required free bytes, one with the fewest; pages with equal free bytes are
//! taken in the order in which they were listed.
use vstd::prelude::*;

verus! {

/// Page ids listed by their free bytes, in ascending order of free bytes.
pub struct FreeSpaceIndex {
    slots: Vec<(u32, u64)>,
    m: Ghost<Map<u64, u32>>,
}

impl View for FreeSpaceIndex {
    type V = Map<u64, u32>;

    closed spec fn view(&self) -> Map<u64, u32> {
        self.m@
    }
}

impl FreeSpaceIndex {
    /// Sorted by free bytes, ids distinct, no zero entry, and the map lists exactly the slots.
    pub closed spec fn wf(&self) -> bool {
        let s = self.slots@;
        &&& forall|i: int, j: int| 0 <= i < j < s.len() ==> s[i].0 <= s[j].0
        &&& forall|i: int, j: int| 0 <= i < s.len() && 0 <= j < s.len() && i != j ==> s[i].1 != s[j].1
        &&& forall|i: int| 0 <= i < s.len() ==> s[i].0 > 0
        &&& forall|i: int|
            0 <= i < s.len() ==> self.m@.contains_key(#[trigger] s[i].1) && self.m@[s[i].1]
                == s[i].0
        &&& forall|p: u64| #[trigger]
            self.m@.contains_key(p) ==> exists|i: int| 0 <= i < s.len() && s[i].1 == p
    }

    pub fn new() -> (r: FreeSpaceIndex)
        ensures
            r.wf(),
            r@ == Map::<u64, u32>::empty(),
    {
        FreeSpaceIndex { slots: Vec::new(), m: Ghost(Map::empty()) }
    }

    /// A listed page with at least `required` free bytes and the fewest such bytes.
    pub fn find(&self, required: u32) -> (r: Option<u64>)
        requires
            self.wf(),
        ensures
            r is None <==> forall|p: u64| #[trigger] self@.contains_key(p) ==> self@[p] < required,
            r is Some ==> {
                let p = r->Some_0;
                &&& self@.contains_key(p)
                &&& self@[p] >= required
                &&& forall|q: u64|
                    #[trigger] self@.contains_key(q) && self@[q] >= required ==> self@[p] <= self@[q]
            },
    {
        let mut i: usize = 0;
        while i < self.slots.len()
            invariant
                self.wf(),
                0 <= i <= self.slots@.len(),
                forall|j: int| 0 <= j < i ==> #[trigger] self.slots@[j].0 < required,
            decreases self.slots@.len() - i,
        {
            if self.slots[i].0 >= required {
                let p = self.slots[i].1;
                proof {
                    assert(self.m@.contains_key(self.slots@[i as int].1));
                    assert(self@.contains_key(p) && !(self@[p] < required));
                    assert forall|q: u64| #[trigger]
                        self@.contains_key(q) && self@[q] >= required implies self@[p] <= self@[q] by {
                        let j = choose|j: int| 0 <= j < self.slots@.len() && self.slots@[j].1 == q;
                        assert(self.m@.contains_key(self.slots@[j].1));
                        if j < i {
                            assert(self.slots@[j].0 < required);
                        }
                    }
                }
                return Some(p);
            }
            i = i + 1;
        }
        proof {
            assert forall|p: u64| #[trigger] self@.contains_key(p) implies self@[p] < required by {
                let j = choose|j: int| 0 <= j < self.slots@.len() && self.slots@[j].1 == p;
                assert(self.m@.contains_key(self.slots@[j].1));
            }
        }
        None
    }

    /// Takes a page off the index.
    pub fn remove(&mut self, pid: u64)
        requires
            old(self).wf(),
        ensures
            final(self).wf(),
            final(self)@ == old(self)@.remove(pid),
    {
        let mut i: usize = 0;
        while i < self.slots.len()
            invariant
                self.wf(),
                self == old(self),
                0 <= i <= self.slots@.len(),
                forall|j: int| 0 <= j < i ==> #[trigger] self.slots@[j].1 != pid,
            decreases self.slots@.len() - i,
        {
            if self.slots[i].1 == pid {
                let ghost s = self.slots@;
                self.slots.remove(i);
                self.m = Ghost(self.m@.remove(pid));
                proof {
                    let t = self.slots@;
                    assert(t =~= s.remove(i as int));
                    assert forall|a: int| 0 <= a < t.len() implies self.m@.contains_key(#[trigger] t[a].1)
                        && self.m@[t[a].1] == t[a].0 by {
                        if a < i {
                            assert(t[a] == s[a]);
                        } else {
                            assert(t[a] == s[a + 1]);
                        }
                    }
                    assert forall|a: int, b: int| 0 <= a < b < t.len() implies t[a].0 <= t[b].0 by {
                        let a2 = if a < i { a } else { a + 1 };
                        let b2 = if b < i { b } else { b + 1 };
                        assert(t[a] == s[a2] && t[b] == s[b2]);
                    }
                    assert forall|a: int, b: int|
                        0 <= a < t.len() && 0 <= b < t.len() && a != b implies t[a].1 != t[b].1 by {
                        let a2 = if a < i { a } else { a + 1 };
                        let b2 = if b < i { b } else { b + 1 };
                        assert(t[a] == s[a2] && t[b] == s[b2]);
                    }
                    assert forall|a: int| 0 <= a < t.len() implies t[a].0 > 0 by {
                        let a2 = if a < i { a } else { a + 1 };
                        assert(t[a] == s[a2]);
                    }
                    assert forall|p: u64| #[trigger] self.m@.contains_key(p) implies exists|a: int|
                        0 <= a < t.len() && t[a].1 == p by {
                        let j = choose|j: int| 0 <= j < s.len() && s[j].1 == p;
                        if j < i {
                            assert(t[j] == s[j]);
                        } else {
                            assert(j != i);
                            assert(t[j - 1] == s[j]);
                        }
                    }
                }
                return;
            }
            i = i + 1;
        }
        proof {
            assert(!self.m@.contains_key(pid)) by {
                if self.m@.contains_key(pid) {
                    let j = choose|j: int| 0 <= j < self.slots@.len() && self.slots@[j].1 == pid;
                    assert(self.slots@[j].1 != pid);
                }
            }
            assert(self.m@.remove(pid) =~= self.m@);
        }
    }

    /// Lists a page under its free bytes, after the pages with as many or fewer.
    pub fn insert(&mut self, pid: u64, free: u32)
        requires
            old(self).wf(),
            !old(self)@.contains_key(pid),
            free > 0,
        ensures
            final(self).wf(),
            final(self)@ == old(self)@.insert(pid, free),
    {
        let mut i: usize = 0;
        while i < self.slots.len() && self.slots[i].0 <= free
            invariant
                self.wf(),
                self == old(self),
                0 <= i <= self.slots@.len(),
                forall|j: int| 0 <= j < i ==> #[trigger] self.slots@[j].0 <= free,
            decreases self.slots@.len() - i,
        {
            i = i + 1;
        }
        let ghost s = self.slots@;
        proof {
            assert forall|j: int| 0 <= j < s.len() implies #[trigger] s[j].1 != pid by {
                assert(self.m@.contains_key(s[j].1));
            }
        }
        self.slots.insert(i, (free, pid));
        self.m = Ghost(self.m@.insert(pid, free));
        proof {
            let t = self.slots@;
            assert(t =~= s.insert(i as int, (free, pid)));
            assert forall|a: int| 0 <= a < t.len() implies self.m@.contains_key(#[trigger] t[a].1)
                && self.m@[t[a].1] == t[a].0 by {
                if a < i {
                    assert(t[a] == s[a]);
                } else if a > i {
                    assert(t[a] == s[a - 1]);
                }
            }
            assert forall|a: int, b: int| 0 <= a < b < t.len() implies t[a].0 <= t[b].0 by {
                if a < i && b > i {
                    assert(t[a] == s[a] && t[b] == s[b - 1]);
                } else if a < i && b == i {
                    assert(t[a] == s[a]);
                } else if a == i && b > i {
                    assert(t[b] == s[b - 1]);
                    if i < s.len() {
                        assert(s[i as int].0 > free);
                        if b - 1 > i {
                            assert(s[i as int].0 <= s[b - 1].0);
                        }
                    }
                } else if a > i {
                    assert(t[a] == s[a - 1] && t[b] == s[b - 1]);
                } else {
                    assert(t[a] == s[a] && t[b] == s[b]);
                }
            }
            assert forall|a: int, b: int|
                0 <= a < t.len() && 0 <= b < t.len() && a != b implies t[a].1 != t[b].1 by {
                let a2 = if a < i { a } else { a - 1 };
                let b2 = if b < i { b } else { b - 1 };
                if a != i && b != i {
                    assert(t[a] == s[a2] && t[b] == s[b2]);
                } else if a == i {
                    assert(t[b] == s[b2]);
                } else {
                    assert(t[a] == s[a2]);
                }
            }
            assert forall|a: int| 0 <= a < t.len() implies t[a].0 > 0 by {
                if a < i {
                    assert(t[a] == s[a]);
                } else if a > i {
                    assert(t[a] == s[a - 1]);
                }
            }
            assert forall|p: u64| #[trigger] self.m@.contains_key(p) implies exists|a: int|
                0 <= a < t.len() && t[a].1 == p by {
                if p == pid {
                    assert(t[i as int].1 == pid);
                } else {
                    let j = choose|j: int| 0 <= j < s.len() && s[j].1 == p;
                    if j < i {
                        assert(t[j] == s[j]);
                    } else {
                        assert(t[j + 1] == s[j]);
                    }
                }
            }
        }
    }
}

} // verus!
