//! A binary heap of (distance, vertex) entries that hands out the entry
//! with the smallest distance first, and among equal distances the one with
//! the largest vertex.
use vstd::prelude::*;
use vstd::multiset::Multiset;
use vstd::seq_lib::group_to_multiset_ensures;

verus! {

/// Entry `a` is handed out no later than entry `b`.
pub open spec fn ahead(a: (i128, usize), b: (i128, usize)) -> bool {
    a.0 < b.0 || (a.0 == b.0 && a.1 >= b.1)
}

pub open spec fn parent(i: int) -> int {
    (i - 1) / 2
}

/// Every entry is no later than its children.
pub open spec fn heap_ordered(s: Seq<(i128, usize)>) -> bool {
    forall|i: int| 0 < i < s.len() ==> ahead(s[parent(i)], #[trigger] s[i])
}

fn ahead_exec(a: (i128, usize), b: (i128, usize)) -> (r: bool)
    ensures
        r == ahead(a, b),
{
    a.0 < b.0 || (a.0 == b.0 && a.1 >= b.1)
}

proof fn lemma_root_ahead(s: Seq<(i128, usize)>, i: int)
    requires
        heap_ordered(s),
        0 <= i < s.len(),
    ensures
        ahead(s[0], s[i]),
    decreases i,
{
    if i > 0 {
        lemma_root_ahead(s, parent(i));
        assert(ahead(s[parent(i)], s[i]));
    }
}

proof fn lemma_swap_multiset(s: Seq<(i128, usize)>, i: int, j: int)
    requires
        0 <= i < s.len(),
        0 <= j < s.len(),
    ensures
        s.update(i, s[j]).update(j, s[i]).to_multiset() =~= s.to_multiset(),
{
    broadcast use group_to_multiset_ensures;
    broadcast use vstd::multiset::group_multiset_axioms;

    let t = s.update(i, s[j]);
    assert(t.to_multiset() == s.to_multiset().insert(s[j]).remove(s[i]));
    assert(t.update(j, s[i]).to_multiset() == t.to_multiset().insert(s[i]).remove(t[j]));
}

/// A priority queue of (distance, vertex) entries.
pub struct DistQueue {
    items: Vec<(i128, usize)>,
}

impl DistQueue {
    /// The entries in the queue.
    pub closed spec fn entries(&self) -> Multiset<(i128, usize)> {
        self.items@.to_multiset()
    }

    pub closed spec fn wf(&self) -> bool {
        heap_ordered(self.items@)
    }

    pub fn new() -> (q: Self)
        ensures
            q.wf(),
            q.entries() =~= Multiset::<(i128, usize)>::empty(),
    {
        let q = DistQueue { items: Vec::new() };
        proof {
            broadcast use group_to_multiset_ensures;

            assert(q.items@.to_multiset().len() == 0);
        }
        q
    }

    pub fn len(&self) -> (n: usize)
        ensures
            n == self.entries().len(),
    {
        proof {
            broadcast use group_to_multiset_ensures;

        }
        self.items.len()
    }

    fn swap(&mut self, i: usize, j: usize)
        requires
            i < old(self).items@.len(),
            j < old(self).items@.len(),
        ensures
            final(self).items@ == old(self).items@.update(i as int, old(self).items@[j as int]).update(
                j as int,
                old(self).items@[i as int],
            ),
            final(self).entries() == old(self).entries(),
    {
        let a = self.items[i];
        let b = self.items[j];
        self.items.set(i, b);
        self.items.set(j, a);
        proof {
            lemma_swap_multiset(old(self).items@, i as int, j as int);
        }
    }

    /// Adds an entry.
    pub fn push(&mut self, x: (i128, usize))
        requires
            old(self).wf(),
        ensures
            final(self).wf(),
            final(self).entries() == old(self).entries().insert(x),
    {
        proof {
            broadcast use group_to_multiset_ensures;

        }
        self.items.push(x);
        let mut k: usize = self.items.len() - 1;
        while k > 0 && !ahead_exec(self.items[(k - 1) / 2], self.items[k])
            invariant
                k < self.items@.len(),
                self.entries() == old(self).entries().insert(x),
                forall|i: int|
                    0 < i < self.items@.len() && i != k ==> ahead(
                        self.items@[parent(i)],
                        #[trigger] self.items@[i],
                    ),
                k > 0 ==> forall|c: int|
                    0 < c < self.items@.len() && parent(c) == k ==> ahead(
                        self.items@[parent(k as int)],
                        #[trigger] self.items@[c],
                    ),
            decreases k,
        {
            let p = (k - 1) / 2;
            let ghost s = self.items@;
            self.swap(k, p);
            proof {
                let t = self.items@;
                assert forall|i: int| 0 < i < t.len() && i != p implies ahead(
                    t[parent(i)],
                    #[trigger] t[i],
                ) by {
                    if i == k as int {
                    } else if parent(i) == p as int {
                        assert(ahead(s[p as int], s[i]));
                    } else if parent(i) == k as int {
                        assert(ahead(s[parent(k as int)], s[i]));
                    } else {
                        assert(ahead(s[parent(i)], s[i]));
                    }
                }
                if p > 0 {
                    assert forall|c: int| 0 < c < t.len() && parent(c) == p implies ahead(
                        t[parent(p as int)],
                        #[trigger] t[c],
                    ) by {
                        assert(ahead(s[parent(p as int)], s[p as int]));
                        if c != k as int {
                            assert(ahead(s[p as int], s[c]));
                        }
                    }
                }
            }
            k = p;
        }
    }

    /// Takes out an entry that is ahead of all others; `None` when empty.
    pub fn pop(&mut self) -> (r: Option<(i128, usize)>)
        requires
            old(self).wf(),
        ensures
            final(self).wf(),
            old(self).entries().len() == 0 ==> r is None && final(self).entries() == old(self).entries(),
            old(self).entries().len() > 0 ==> match r {
                Some(x) => {
                    &&& old(self).entries().count(x) > 0
                    &&& final(self).entries() == old(self).entries().remove(x)
                    &&& forall|y: (i128, usize)| #[trigger] old(self).entries().count(y) > 0 ==> ahead(x, y)
                },
                None => false,
            },
    {
        proof {
            broadcast use group_to_multiset_ensures;

        }
        if self.items.len() == 0 {
            return None;
        }
        let top = self.items[0];
        proof {
            assert forall|y: (i128, usize)| #[trigger] old(self).entries().count(y) > 0 implies ahead(
                top,
                y,
            ) by {
                assert(old(self).items@.contains(y));
                let j = choose|j: int| 0 <= j < old(self).items@.len() && old(self).items@[j] == y;
                lemma_root_ahead(old(self).items@, j);
            }
        }
        let last = self.items.pop().unwrap();
        proof {
            assert(old(self).items@.remove(old(self).items@.len() - 1) =~= self.items@);
        }
        if self.items.len() == 0 {
            return Some(top);
        }
        self.items.set(0, last);
        let n = self.items.len();
        let mut k: usize = 0;
        loop
            invariant
                n == self.items@.len(),
                k < n,
                self.entries() == old(self).entries().remove(top),
                forall|i: int|
                    0 < i < n && parent(i) != k ==> ahead(self.items@[parent(i)], #[trigger] self.items@[i]),
                k > 0 ==> forall|c: int|
                    0 < c < n && parent(c) == k ==> ahead(
                        self.items@[parent(k as int)],
                        #[trigger] self.items@[c],
                    ),
            ensures
                heap_ordered(self.items@),
                self.entries() == old(self).entries().remove(top),
            decreases n - k,
        {
            if k >= n / 2 {
                proof {
                    assert forall|i: int| 0 < i < n implies ahead(self.items@[parent(i)], #[trigger] self.items@[i]) by {
                        assert(parent(i) != k);
                    }
                }
                break;
            }
            let c1 = 2 * k + 1;
            let mut b = c1;
            if c1 + 1 < n && !ahead_exec(self.items[c1], self.items[c1 + 1]) {
                b = c1 + 1;
            }
            if ahead_exec(self.items[k], self.items[b]) {
                proof {
                    assert forall|i: int| 0 < i < n implies ahead(self.items@[parent(i)], #[trigger] self.items@[i]) by {
                        if parent(i) == k {
                            assert(i == c1 || i == c1 + 1);
                        }
                    }
                }
                break;
            }
            let ghost s = self.items@;
            self.swap(k, b);
            proof {
                let t = self.items@;
                assert(parent(b as int) == k);
                assert forall|i: int| 0 < i < n && parent(i) != b implies ahead(
                    t[parent(i)],
                    #[trigger] t[i],
                ) by {
                    if i == b as int {
                    } else if parent(i) == k as int {
                        assert(i == c1 || i == c1 + 1);
                    } else if i == k as int {
                        assert(ahead(s[parent(k as int)], s[b as int]));
                    } else {
                        assert(ahead(s[parent(i)], s[i]));
                    }
                }
                assert forall|c: int| 0 < c < n && parent(c) == b implies ahead(
                    t[parent(b as int)],
                    #[trigger] t[c],
                ) by {
                    assert(ahead(s[b as int], s[c]));
                }
            }
            k = b;
        }
        Some(top)
    }
}

} // verus!
