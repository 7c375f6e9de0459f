//! A heap that has the longest-waiting player on top.

use crate::player::PlayerEntry;
use vstd::prelude::*;

verus! {

/// A binary heap of players in which nobody has waited longer than the player
/// one level up.
pub struct OldestHeap {
    items: Vec<PlayerEntry>,
}

impl View for OldestHeap {
    type V = Set<PlayerEntry>;

    /// The players in the heap.
    closed spec fn view(&self) -> Set<PlayerEntry> {
        self.items@.to_set()
    }
}

/// Whether the player at `i` has waited no longer than the one above it.
spec fn settled(items: Seq<PlayerEntry>, i: int) -> bool {
    !items[i].older(items[(i - 1) / 2])
}

/// Two places exchanged.
spec fn swapped(items: Seq<PlayerEntry>, i: int, j: int) -> Seq<PlayerEntry> {
    items.update(i, items[j]).update(j, items[i])
}

/// An exchange moves players and loses none.
proof fn lemma_swapped(items: Seq<PlayerEntry>, i: int, j: int)
    requires
        items.no_duplicates(),
        0 <= i < items.len(),
        0 <= j < items.len(),
        i != j,
    ensures
        swapped(items, i, j).no_duplicates(),
        swapped(items, i, j).to_set() == items.to_set(),
{
    let other = swapped(items, i, j);
    assert forall|e: PlayerEntry| items.contains(e) implies #[trigger] other.contains(e) by {
        let k = choose|k: int| 0 <= k < items.len() && items[k] == e;
        let m = if k == i {
            j
        } else if k == j {
            i
        } else {
            k
        };
        assert(other[m] == e);
    }
    assert forall|e: PlayerEntry| other.contains(e) implies #[trigger] items.contains(e) by {
        let k = choose|k: int| 0 <= k < other.len() && other[k] == e;
        let m = if k == i {
            j
        } else if k == j {
            i
        } else {
            k
        };
        assert(items[m] == e);
    }
    assert(other.to_set() =~= items.to_set());
}

/// Nobody has waited longer than the player on top.
proof fn lemma_top(items: Seq<PlayerEntry>, i: int)
    requires
        forall|k: int| 1 <= k < items.len() ==> #[trigger] settled(items, k),
        0 <= i < items.len(),
    ensures
        !items[i].older(items[0]),
    decreases i,
{
    if i > 0 {
        assert(settled(items, i));
        lemma_top(items, (i - 1) / 2);
    }
}

impl OldestHeap {
    /// Nobody is in the heap twice, and every player is settled.
    pub closed spec fn wf(self) -> bool {
        &&& self.items@.no_duplicates()
        &&& forall|k: int| 1 <= k < self.items@.len() ==> #[trigger] settled(self.items@, k)
    }

    /// The player on top of a heap that is not empty.
    pub closed spec fn top(self) -> PlayerEntry {
        self.items@[0]
    }

    /// An empty heap.
    pub fn new() -> (heap: Self)
        ensures
            heap.wf(),
            heap@ == Set::<PlayerEntry>::empty(),
    {
        let heap = OldestHeap { items: Vec::new() };
        assert(heap@ =~= Set::empty());
        heap
    }

    proof fn lemma_top_is_oldest(self)
        requires
            self.wf(),
            self.items@.len() > 0,
        ensures
            self@.contains(self.items@[0]),
            forall|e: PlayerEntry| #[trigger] self@.contains(e) ==> !e.older(self.items@[0]),
    {
        assert forall|e: PlayerEntry| #[trigger] self@.contains(e) implies !e.older(
            self.items@[0],
        ) by {
            let k = choose|k: int| 0 <= k < self.items@.len() && self.items@[k] == e;
            lemma_top(self.items@, k);
        }
    }

    fn swap(&mut self, i: usize, j: usize)
        requires
            i < old(self).items@.len(),
            j < old(self).items@.len(),
        ensures
            final(self).items@ == swapped(old(self).items@, i as int, j as int),
    {
        let a = self.items[i];
        let b = self.items[j];
        self.items.set(i, b);
        self.items.set(j, a);
    }

    /// Adds a player.
    pub fn push(&mut self, entry: PlayerEntry)
        requires
            old(self).wf(),
            !old(self)@.contains(entry),
        ensures
            final(self).wf(),
            final(self)@ == old(self)@.insert(entry),
    {
        self.items.push(entry);
        proof {
            assert(self.items@.drop_last() =~= old(self).items@);
            old(self).items@.lemma_push_to_set_commute(entry);
            assert forall|k: int| 1 <= k < self.items@.len() - 1 implies #[trigger] settled(
                self.items@,
                k,
            ) by {
                assert(settled(old(self).items@, k));
            }
        }
        let mut i: usize = self.items.len() - 1;
        while i > 0
            invariant
                i < self.items@.len(),
                self.items@.no_duplicates(),
                self.items@.to_set() == old(self)@.insert(entry),
                forall|k: int|
                    1 <= k < self.items@.len() && k != i ==> #[trigger] settled(self.items@, k),
                i > 0 ==> forall|k: int|
                    1 <= k < self.items@.len() && (k - 1) / 2 == i ==> !(#[trigger] self.items@[k]).older(
                        self.items@[(i - 1) / 2],
                    ),
            decreases i,
        {
            let above: usize = (i - 1) / 2;
            if !self.items[i].is_older(&self.items[above]) {
                assert(settled(self.items@, i as int));
                return ;
            }
            let ghost before = self.items@;
            self.swap(i, above);
            proof {
                lemma_swapped(before, i as int, above as int);
                assert forall|k: int| 1 <= k < self.items@.len() && k != above implies #[trigger] settled(
                    self.items@,
                    k,
                ) by {
                    if k != i {
                        assert(settled(before, k));
                    }
                    if (k - 1) / 2 == i {
                        assert(!before[k].older(before[(i - 1) / 2]));
                    }
                }
                assert forall|k: int|
                    above > 0 && 1 <= k < self.items@.len() && (k - 1) / 2 == above implies !(
                #[trigger] self.items@[k]).older(self.items@[(above - 1) / 2]) by {
                    assert(settled(before, above as int));
                    if k != i {
                        assert(settled(before, k));
                    }
                }
            }
            i = above;
        }
    }

    /// The longest-waiting player.
    pub fn peek(&self) -> (top: Option<PlayerEntry>)
        requires
            self.wf(),
        ensures
            match top {
                None => self@.is_empty(),
                Some(entry) => {
                    &&& entry == self.top()
                    &&& self@.contains(entry)
                    &&& forall|e: PlayerEntry| #[trigger] self@.contains(e) ==> !e.older(entry)
                },
            },
    {
        if self.items.len() == 0 {
            assert(self@ =~= Set::empty());
            return None;
        }
        proof {
            self.lemma_top_is_oldest();
        }
        Some(self.items[0])
    }

    /// Takes the longest-waiting player out.
    pub fn pop(&mut self) -> (top: Option<PlayerEntry>)
        requires
            old(self).wf(),
        ensures
            final(self).wf(),
            match top {
                None => old(self)@.is_empty() && final(self)@ == old(self)@,
                Some(entry) => {
                    &&& entry == old(self).top()
                    &&& old(self)@.contains(entry)
                    &&& forall|e: PlayerEntry| #[trigger]
                        old(self)@.contains(e) ==> !e.older(entry)
                    &&& final(self)@ == old(self)@.remove(entry)
                    &&& final(self)@.len() < old(self)@.len()
                },
            },
    {
        if self.items.len() == 0 {
            assert(self@ =~= Set::empty());
            return None;
        }
        let top = self.items[0];
        proof {
            self.lemma_top_is_oldest();
        }
        let last: usize = self.items.len() - 1;
        let ghost before = self.items@;
        if last > 0 {
            self.swap(0, last);
            proof {
                lemma_swapped(before, 0, last as int);
            }
        }
        let ghost moved = self.items@;
        let _ = self.items.pop();
        proof {
            assert(moved.last() == top);
            assert(self.items@ =~= moved.drop_last());
            assert forall|e: PlayerEntry| self.items@.contains(e) <==> #[trigger] moved.contains(e)
                && e != top by {
                if moved.contains(e) && e != top {
                    let k = choose|k: int| 0 <= k < moved.len() && moved[k] == e;
                    assert(self.items@[k] == e);
                }
                if self.items@.contains(e) {
                    let k = choose|k: int| 0 <= k < self.items@.len() && self.items@[k] == e;
                    assert(moved[k] == e);
                }
            }
            assert(self.items@.to_set() =~= old(self)@.remove(top));
            assert forall|k: int|
                1 <= k < self.items@.len() && (k - 1) / 2 != 0 implies #[trigger] settled(
                self.items@,
                k,
            ) by {
                assert(settled(before, k));
            }
        }
        self.sift_down();
        proof {
            vstd::seq_lib::seq_to_set_is_finite(before);
            assert(old(self)@.contains(top));
        }
        Some(top)
    }

    /// Lets the player on top sink to where it belongs.
    fn sift_down(&mut self)
        requires
            old(self).items@.no_duplicates(),
            forall|k: int|
                1 <= k < old(self).items@.len() && (k - 1) / 2 != 0 ==> #[trigger] settled(
                    old(self).items@,
                    k,
                ),
        ensures
            final(self).wf(),
            final(self)@ == old(self)@,
    {
        let n: usize = self.items.len();
        let mut i: usize = 0;
        while i < n / 2
            invariant
                n == self.items@.len(),
                self.items@.no_duplicates(),
                self.items@.to_set() == old(self)@,
                forall|k: int|
                    1 <= k < n && (k - 1) / 2 != i ==> #[trigger] settled(self.items@, k),
                i > 0 ==> forall|k: int|
                    1 <= k < n && (k - 1) / 2 == i ==> !(#[trigger] self.items@[k]).older(
                        self.items@[(i - 1) / 2],
                    ),
            decreases n - i,
        {
            let left: usize = 2 * i + 1;
            let mut child: usize = left;
            if left + 1 < n && self.items[left + 1].is_older(&self.items[left]) {
                child = left + 1;
            }
            if !self.items[child].is_older(&self.items[i]) {
                proof {
                    assert forall|k: int| 1 <= k < n implies #[trigger] settled(self.items@, k) by {
                        if (k - 1) / 2 == i {
                            assert(k == left || k == left + 1);
                        }
                    }
                }
                return ;
            }
            let ghost before = self.items@;
            self.swap(i, child);
            proof {
                lemma_swapped(before, i as int, child as int);
                assert forall|k: int| 1 <= k < n && (k - 1) / 2 != child implies #[trigger] settled(
                    self.items@,
                    k,
                ) by {
                    if (k - 1) / 2 == i {
                        assert(k == left || k == left + 1);
                    } else if k == i {
                        assert(!before[child as int].older(before[(i - 1) / 2]));
                    } else {
                        assert(settled(before, k));
                    }
                }
                assert forall|k: int| 1 <= k < n && (k - 1) / 2 == child implies !(
                #[trigger] self.items@[k]).older(self.items@[(child - 1) / 2]) by {
                    assert(settled(before, k));
                }
            }
            i = child;
        }
        proof {
            assert forall|k: int| 1 <= k < n implies #[trigger] settled(self.items@, k) by {}
        }
    }
}

} // verus!
