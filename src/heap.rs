use vstd::prelude::*;
use vstd::multiset::Multiset;

verus! {

broadcast use {vstd::seq_lib::group_to_multiset_ensures, vstd::multiset::group_multiset_axioms};

/// An entry of the shortest-path queue: a tentative distance and a node position.
pub type Entry = (u128, usize);

/// Queue order: the smaller distance first; at equal distances the smaller
/// position (the smaller node) first.
pub open spec fn entry_le(a: Entry, b: Entry) -> bool {
    a.0 < b.0 || (a.0 == b.0 && a.1 <= b.1)
}

fn entry_less_eq(a: Entry, b: Entry) -> (r: bool)
    ensures
        r == entry_le(a, b),
{
    a.0 < b.0 || (a.0 == b.0 && a.1 <= b.1)
}

pub open spec fn parent(i: int) -> int {
    (i - 1) / 2
}

/// A binary min-heap of entries, stored level by level in a vector.
pub(crate) struct MinQueue {
    pub(crate) data: Vec<Entry>,
}

impl View for MinQueue {
    type V = Multiset<Entry>;

    open(crate) spec fn view(&self) -> Multiset<Entry> {
        self.data@.to_multiset()
    }
}

/// Every entry stands no earlier in queue order than its parent.
pub open spec fn heap_ordered(s: Seq<Entry>) -> bool {
    forall|j: int| 0 < j < s.len() ==> entry_le(s[parent(j)], #[trigger] s[j])
}

proof fn lemma_root_first(s: Seq<Entry>, i: int)
    requires
        heap_ordered(s),
        0 <= i < s.len(),
    ensures
        entry_le(s[0], s[i]),
    decreases i,
{
    if i > 0 {
        lemma_root_first(s, parent(i));
    }
}

proof fn lemma_swap_multiset(s: Seq<Entry>, i: int, j: int)
    requires
        0 <= i < s.len(),
        0 <= j < s.len(),
    ensures
        s.update(i, s[j]).update(j, s[i]).to_multiset() == s.to_multiset(),
{
    let s1 = s.update(i, s[j]);
    assert(s1.to_multiset() == s.to_multiset().insert(s[j]).remove(s[i]));
    assert(s1.update(j, s[i]).to_multiset() == s1.to_multiset().insert(s[i]).remove(s1[j]));
    if i == j {
        assert(s.update(i, s[j]).update(j, s[i]) =~= s);
    } else {
        assert(s1[j] == s[j]);
        assert(s1.update(j, s[i]).to_multiset() =~= s.to_multiset());
    }
}

impl MinQueue {
    pub(crate) open spec fn wf(&self) -> bool {
        heap_ordered(self.data@)
    }

    pub(crate) fn new() -> (q: MinQueue)
        ensures
            q.wf(),
            q@ == Multiset::<Entry>::empty(),
    {
        let q = MinQueue { data: Vec::new() };
        proof {
            assert(q.data@.to_multiset() =~= Multiset::<Entry>::empty());
        }
        q
    }

    pub(crate) fn len(&self) -> (r: usize)
        ensures
            r == self@.len(),
    {
        self.data.len()
    }

    /// Adds an entry.
    pub(crate) fn push(&mut self, x: Entry)
        requires
            old(self).wf(),
        ensures
            final(self).wf(),
            final(self)@ == old(self)@.insert(x),
    {
        let mut i: usize = self.data.len();
        self.data.push(x);
        while i > 0
            invariant
                0 <= i < self.data@.len(),
                self.data@.to_multiset() == old(self)@.insert(x),
                forall|j: int|
                    0 < j < self.data@.len() && j != i ==> entry_le(
                        self.data@[parent(j)],
                        #[trigger] self.data@[j],
                    ),
                i > 0 ==> forall|j: int|
                    0 < j < self.data@.len() && parent(j) == i ==> entry_le(
                        self.data@[parent(i as int)],
                        #[trigger] self.data@[j],
                    ),
            ensures
                heap_ordered(self.data@),
                self.data@.to_multiset() == old(self)@.insert(x),
            decreases i,
        {
            let p: usize = (i - 1) / 2;
            let a: Entry = self.data[p];
            let b: Entry = self.data[i];
            if entry_less_eq(a, b) {
                proof {
                    assert(heap_ordered(self.data@));
                }
                break;
            }
            let ghost s = self.data@;
            self.data.set(p, b);
            self.data.set(i, a);
            proof {
                lemma_swap_multiset(s, p as int, i as int);
                assert(self.data@ == s.update(p as int, s[i as int]).update(i as int, s[p as int]));
                let t = self.data@;
                assert forall|j: int| 0 < j < t.len() && j != p implies entry_le(
                    t[parent(j)],
                    #[trigger] t[j],
                ) by {
                    if j == i {
                    } else if parent(j) == i {
                        assert(entry_le(s[parent(i as int)], s[j]));
                    } else if parent(j) == p {
                        assert(entry_le(s[p as int], s[j]));
                    }
                }
                if p > 0 {
                    assert forall|j: int| 0 < j < t.len() && parent(j) == p implies entry_le(
                        t[parent(p as int)],
                        #[trigger] t[j],
                    ) by {
                        assert(entry_le(s[parent(p as int)], s[p as int]));
                        if j != i {
                            assert(entry_le(s[p as int], s[j]));
                        }
                    }
                }
            }
            i = p;
        }
    }

    /// Removes and returns a first entry in queue order, if any.
    pub(crate) fn pop(&mut self) -> (r: Option<Entry>)
        requires
            old(self).wf(),
        ensures
            final(self).wf(),
            match r {
                None => old(self)@.len() == 0 && final(self)@ == old(self)@,
                Some(e) => old(self)@.contains(e) && final(self)@ == old(self)@.remove(e)
                    && forall|x: Entry| old(self)@.contains(x) ==> entry_le(e, x),
            },
    {
        if self.data.len() == 0 {
            return None;
        }
        let ghost s0 = self.data@;
        let top: Entry = self.data[0];
        proof {
            assert forall|x: Entry| s0.to_multiset().contains(x) implies entry_le(top, x) by {
                assert(s0.contains(x));
                let k = choose|k: int| 0 <= k < s0.len() && s0[k] == x;
                lemma_root_first(s0, k);
            }
            assert(s0.contains(top)) by {
                assert(s0[0] == top);
            }
        }
        let last: Entry = self.data.pop().unwrap();
        proof {
            assert(s0.drop_last() == self.data@);
            assert(s0 == self.data@.push(last));
        }
        if self.data.len() == 0 {
            proof {
                assert(top == last);
            }
            return Some(top);
        }
        let ghost s1 = self.data@;
        self.data.set(0, last);
        proof {
            assert(s1[0] == top);
            assert(self.data@.to_multiset() =~= s0.to_multiset().remove(top));
        }
        let n: usize = self.data.len();
        let mut i: usize = 0;
        loop
            invariant
                n == self.data@.len(),
                0 <= i < n,
                self.data@.to_multiset() == s0.to_multiset().remove(top),
                forall|j: int|
                    0 < j < n && parent(j) != i ==> entry_le(
                        self.data@[parent(j)],
                        #[trigger] self.data@[j],
                    ),
                i > 0 ==> forall|j: int|
                    0 < j < n && parent(j) == i ==> entry_le(
                        self.data@[parent(i as int)],
                        #[trigger] self.data@[j],
                    ),
            ensures
                heap_ordered(self.data@),
                self.data@.to_multiset() == s0.to_multiset().remove(top),
            decreases n - i,
        {
            if i >= n / 2 {
                proof {
                    assert forall|j: int| 0 < j < n implies entry_le(
                        self.data@[parent(j)],
                        #[trigger] self.data@[j],
                    ) by {
                        if parent(j) == i {
                            assert(j >= 2 * i + 1);
                        }
                    }
                }
                break;
            }
            let l: usize = 2 * i + 1;
            let r: usize = 2 * i + 2;
            let c: usize = if r < n && entry_less_eq(self.data[r], self.data[l]) {
                r
            } else {
                l
            };
            let a: Entry = self.data[i];
            let b: Entry = self.data[c];
            proof {
                assert(entry_le(self.data@[c as int], self.data@[l as int]));
                if r < n {
                    assert(entry_le(self.data@[c as int], self.data@[r as int]));
                }
            }
            if entry_less_eq(a, b) {
                proof {
                    assert forall|j: int| 0 < j < n implies entry_le(
                        self.data@[parent(j)],
                        #[trigger] self.data@[j],
                    ) by {
                        if parent(j) == i {
                            assert(j == l || j == r);
                        }
                    }
                }
                break;
            }
            let ghost s = self.data@;
            self.data.set(i, b);
            self.data.set(c, a);
            proof {
                lemma_swap_multiset(s, i as int, c as int);
                assert(self.data@ == s.update(i as int, s[c as int]).update(c as int, s[i as int]));
                let t = self.data@;
                assert forall|j: int| 0 < j < n && parent(j) != c implies entry_le(
                    t[parent(j)],
                    #[trigger] t[j],
                ) by {
                    if j == c {
                    } else if parent(j) == i {
                        assert(j == l || j == r);
                    } else if j == i {
                        assert(entry_le(s[parent(i as int)], s[c as int]));
                    }
                }
                assert forall|j: int| 0 < j < n && parent(j) == c implies entry_le(
                    t[parent(c as int)],
                    #[trigger] t[j],
                ) by {
                    assert(parent(c as int) == i);
                    assert(entry_le(s[c as int], s[j]));
                }
            }
            i = c;
        }
        Some(top)
    }
}

} // verus!
