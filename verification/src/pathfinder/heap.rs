//! A binary heap from which the entry with the smallest key leaves first.

use vstd::prelude::*;
use vstd::multiset::Multiset;
use vstd::seq_lib::*;

verus! {

/// What a heap needs of its entries: a key, and a way to compare two keys.
pub trait Ranked: Copy {
    /// The key of this entry; the entry with the smallest key leaves first.
    spec fn key(&self) -> int;

    /// Whether the key of this entry can be computed.
    spec fn valid(&self) -> bool;

    /// Whether this entry has a smaller key than `other`.
    fn precedes(&self, other: &Self) -> (b: bool)
        requires
            self.valid(),
            other.valid(),
        ensures
            b == (self.key() < other.key()),
    ;
}

/// The slot above slot `k` in the tree that the heap lays out in a vector.
pub open spec fn parent(k: int) -> int {
    (k - 1) / 2
}

/// No entry of `s` has a smaller key than the entry above it, except
/// perhaps the entry in slot `hole`.
pub open spec fn ordered_above(s: Seq<int>, hole: int) -> bool {
    forall|k: int| 1 <= k < s.len() && k != hole ==> s[parent(k)] <= #[trigger] s[k]
}

/// No entry of `s` has a smaller key than the entry above it, except
/// perhaps the entries directly below slot `hole`.
pub open spec fn ordered_below(s: Seq<int>, hole: int) -> bool {
    forall|k: int| 1 <= k < s.len() && parent(k) != hole ==> s[parent(k)] <= #[trigger] s[k]
}

/// The entries directly below slot `hole` have no smaller key than the
/// entry above it.
pub open spec fn bridged(s: Seq<int>, hole: int) -> bool {
    hole >= 1 ==> forall|k: int|
        1 <= k < s.len() && parent(k) == hole ==> s[parent(hole)] <= #[trigger] s[k]
}

/// No entry of `s` has a smaller key than the entry above it.
pub open spec fn heap_ordered(s: Seq<int>) -> bool {
    forall|k: int| 1 <= k < s.len() ==> s[parent(k)] <= #[trigger] s[k]
}

/// In an ordered heap no entry has a smaller key than the first.
pub proof fn lemma_root_least(s: Seq<int>, k: int)
    requires
        heap_ordered(s),
        0 <= k < s.len(),
    ensures
        s[0] <= s[k],
    decreases k,
{
    if k >= 1 {
        lemma_root_least(s, parent(k));
    }
}

/// The slots directly below slot `i` are `2 i + 1` and `2 i + 2`.
pub proof fn lemma_children(k: int, i: int)
    requires
        1 <= k,
        0 <= i,
    ensures
        parent(k) == i <==> (k == 2 * i + 1 || k == 2 * i + 2),
{
}

/// Exchanging the entry in slot `i` with the smaller of the entries below
/// it, in slot `m`, moves the one place where the order may fail down to
/// slot `m`.
proof fn lemma_down_swap(before: Seq<int>, after: Seq<int>, i: int, m: int)
    requires
        ordered_below(before, i),
        bridged(before, i),
        0 <= i < m < before.len(),
        m == 2 * i + 1 || m == 2 * i + 2,
        after == before.update(i, before[m]).update(m, before[i]),
        before[m] < before[i],
        2 * i + 1 < before.len() ==> before[m] <= before[2 * i + 1],
        2 * i + 2 < before.len() ==> before[m] <= before[2 * i + 2],
    ensures
        ordered_below(after, m),
        bridged(after, m),
{
    lemma_children(m, i);
    assert forall|k: int| 1 <= k < after.len() && parent(k) != m implies after[parent(k)]
        <= #[trigger] after[k] by {
        lemma_children(k, i);
        lemma_children(k, m);
        if k == i {
            assert(before[parent(i)] <= before[m]);
        } else if parent(k) == i {
        } else {
            assert(before[parent(k)] <= before[k]);
        }
    }
    assert forall|k: int| 1 <= k < after.len() && parent(k) == m implies after[parent(m)]
        <= #[trigger] after[k] by {
        lemma_children(k, m);
        assert(before[parent(k)] <= before[k]);
    }
}

/// Where the entry in slot `i` has no larger key than the entries below it,
/// the order holds everywhere.
proof fn lemma_down_stop(s: Seq<int>, i: int)
    requires
        ordered_below(s, i),
        0 <= i,
        2 * i + 1 < s.len() ==> s[i] <= s[2 * i + 1],
        2 * i + 2 < s.len() ==> s[i] <= s[2 * i + 2],
    ensures
        heap_ordered(s),
{
    assert forall|k: int| 1 <= k < s.len() implies s[parent(k)] <= #[trigger] s[k] by {
        lemma_children(k, i);
    }
}

/// `s` with the entries in the slots `i` and `j` exchanged.
pub open spec fn swapped<T>(s: Seq<T>, i: int, j: int) -> Seq<T> {
    s.update(i, s[j]).update(j, s[i])
}

/// `s` after the entry in slot `i` has moved up, slot by slot, for as long as
/// the entry above it had a larger key.
pub open spec fn raised<T: Ranked>(s: Seq<T>, i: int) -> Seq<T>
    decreases i,
{
    if 0 < i < s.len() && s[i].key() < s[parent(i)].key() {
        raised(swapped(s, i, parent(i)), parent(i))
    } else {
        s
    }
}

/// The slot below slot `i` whose entry has the smaller key; the left one
/// where the keys are equal.
pub open spec fn lesser_below<T: Ranked>(s: Seq<T>, i: int) -> int {
    if 2 * i + 2 < s.len() && s[2 * i + 2].key() < s[2 * i + 1].key() {
        2 * i + 2
    } else {
        2 * i + 1
    }
}

/// `s` after the entry in slot `i` has moved down, slot by slot, for as long
/// as an entry below it had a smaller key.
pub open spec fn lowered<T: Ranked>(s: Seq<T>, i: int) -> Seq<T>
    decreases s.len() - i,
{
    if 0 <= i && 2 * i + 1 < s.len() && s[lesser_below(s, i)].key() < s[i].key() {
        lowered(swapped(s, i, lesser_below(s, i)), lesser_below(s, i))
    } else {
        s
    }
}

/// The slots of a heap with slots `s` after `item` was added.
pub open spec fn with_pushed<T: Ranked>(s: Seq<T>, item: T) -> Seq<T> {
    raised(s.push(item), s.len() as int)
}

/// The slots of a heap with slots `s` after the first entry was taken out.
pub open spec fn without_least<T: Ranked>(s: Seq<T>) -> Seq<T> {
    if s.len() <= 1 {
        Seq::empty()
    } else {
        lowered(s.drop_last().update(0, s[s.len() - 1]), 0)
    }
}

/// A priority queue: a multiset of entries, of which one with the smallest
/// key can be taken out.
pub struct MinHeap<T: Ranked> {
    data: Vec<T>,
}

impl<T: Ranked> MinHeap<T> {
    /// The keys of the entries, slot by slot.
    pub closed spec fn keys(&self) -> Seq<int> {
        Seq::new(self.data@.len(), |k: int| self.data@[k].key())
    }

    /// The entries, slot by slot: the order in which the heap keeps them.
    pub closed spec fn slots(&self) -> Seq<T> {
        self.data@
    }

    /// The entries that the heap holds.
    pub closed spec fn view(&self) -> Multiset<T> {
        self.data@.to_multiset()
    }

    /// Every entry has a key that can be computed.
    pub closed spec fn all_valid(&self) -> bool {
        forall|k: int| 0 <= k < self.data@.len() ==> (#[trigger] self.data@[k]).valid()
    }

    /// The heap is ordered by keys that can be computed.
    pub closed spec fn wf(&self) -> bool {
        &&& heap_ordered(self.keys())
        &&& self.all_valid()
    }

    /// An empty heap.
    pub fn new() -> (heap: Self)
        ensures
            heap.wf(),
            heap@ == Multiset::<T>::empty(),
            heap.slots() == Seq::<T>::empty(),
    {
        let heap = MinHeap { data: Vec::new() };
        proof {
            broadcast use vstd::multiset::group_multiset_axioms;

            heap.data@.to_multiset_ensures();
            assert(heap@.len() == 0);
            assert(heap@ =~= Multiset::<T>::empty());
        }
        heap
    }

    /// The number of entries.
    pub fn len(&self) -> (n: usize)
        ensures
            n == self@.len(),
    {
        proof {
            self.data@.to_multiset_ensures();
        }
        self.data.len()
    }

    /// Exchanges the entries in slots `i` and `j`.
    fn swap(&mut self, i: usize, j: usize)
        requires
            i < old(self).data.len(),
            j < old(self).data.len(),
        ensures
            final(self).data@ == swapped(old(self).data@, i as int, j as int),
            final(self)@ == old(self)@,
            old(self).all_valid() ==> final(self).all_valid(),
    {
        let ghost before = self.data@;
        let a = self.data[i];
        let b = self.data[j];
        self.data[i] = b;
        self.data[j] = a;
        proof {
            broadcast use vstd::multiset::group_multiset_axioms;

            let mid = before.update(i as int, b);
            to_multiset_update(before, i as int, b);
            to_multiset_update(mid, j as int, a);
            before.to_multiset_ensures();
            assert(self.data@ == mid.update(j as int, a));
            assert(self.data@.to_multiset() =~= before.to_multiset());
        }
    }

    /// Moves the entry in slot `start` up until the entry above it has no
    /// larger key.
    fn sift_up(&mut self, start: usize)
        requires
            start < old(self).data.len(),
            ordered_above(old(self).keys(), start as int),
            bridged(old(self).keys(), start as int),
            old(self).all_valid(),
        ensures
            final(self).wf(),
            final(self)@ == old(self)@,
            final(self).data@ == raised(old(self).data@, start as int),
    {
        let mut i = start;
        while i > 0
            invariant
                i < self.data.len(),
                self.data.len() == old(self).data.len(),
                ordered_above(self.keys(), i as int),
                bridged(self.keys(), i as int),
                self@ == old(self)@,
                self.all_valid(),
                raised(self.data@, i as int) == raised(old(self).data@, start as int),
            ensures
                heap_ordered(self.keys()),
                self.data@ == raised(old(self).data@, start as int),
            decreases i,
        {
            let p = (i - 1) / 2;
            if self.data[i].precedes(&self.data[p]) {
                let ghost before = self.keys();
                self.swap(i, p);
                proof {
                    let after = self.keys();
                    assert(after =~= before.update(i as int, before[p as int]).update(
                        p as int,
                        before[i as int],
                    ));
                    assert forall|k: int| 1 <= k < after.len() && k != p implies after[parent(k)]
                        <= #[trigger] after[k] by {
                        if k == i {
                        } else if parent(k) == i {
                            assert(before[parent(i as int)] <= before[k]);
                        } else if parent(k) == p {
                            assert(before[parent(k)] <= before[k]);
                        } else {
                            assert(before[parent(k)] <= before[k]);
                        }
                    }
                    if p >= 1 {
                        assert forall|k: int|
                            1 <= k < after.len() && parent(k) == p implies after[parent(
                            p as int,
                        )] <= #[trigger] after[k] by {
                            assert(before[parent(p as int)] <= before[p as int]);
                            if k != i {
                                assert(before[parent(k)] <= before[k]);
                            }
                        }
                    }
                }
                i = p;
            } else {
                break ;
            }
        }
    }

    /// Moves the entry in slot 0 down until neither entry below it has a
    /// smaller key.
    fn sift_down(&mut self)
        requires
            ordered_below(old(self).keys(), 0),
            old(self).all_valid(),
        ensures
            final(self).wf(),
            final(self)@ == old(self)@,
            final(self).data.len() == old(self).data.len(),
            final(self).data@ == lowered(old(self).data@, 0),
    {
        let len = self.data.len();
        let mut i: usize = 0;
        while i < len / 2
            invariant
                len == self.data.len(),
                self.data.len() == old(self).data.len(),
                ordered_below(self.keys(), i as int),
                bridged(self.keys(), i as int),
                self@ == old(self)@,
                self.all_valid(),
                lowered(self.data@, i as int) == lowered(old(self).data@, 0),
            ensures
                heap_ordered(self.keys()),
                self.data@ == lowered(old(self).data@, 0),
            decreases len - i,
        {
            let l = 2 * i + 1;
            let r = l + 1;
            let m = if r < len && self.data[r].precedes(&self.data[l]) {
                r
            } else {
                l
            };
            if self.data[m].precedes(&self.data[i]) {
                let ghost before = self.keys();
                self.swap(i, m);
                proof {
                    let after = self.keys();
                    assert(after =~= before.update(i as int, before[m as int]).update(
                        m as int,
                        before[i as int],
                    ));
                    lemma_down_swap(before, after, i as int, m as int);
                }
                i = m;
            } else {
                proof {
                    lemma_down_stop(self.keys(), i as int);
                }
                break ;
            }
        }
        proof {
            if i >= len / 2 {
                lemma_down_stop(self.keys(), i as int);
            }
        }
    }

    /// Adds `item`.
    pub fn push(&mut self, item: T)
        requires
            old(self).wf(),
            item.valid(),
        ensures
            final(self).wf(),
            final(self)@ == old(self)@.insert(item),
            final(self).slots() == with_pushed(old(self).slots(), item),
    {
        let ghost before = self.keys();
        let ghost entries = self.data@;
        self.data.push(item);
        proof {
            to_multiset_build(entries, item);
            let after = self.keys();
            assert(after =~= before.push(item.key()));
            assert forall|k: int| 1 <= k < after.len() && k != after.len() - 1 implies after[parent(
                k,
            )] <= #[trigger] after[k] by {
                assert(before[parent(k)] <= before[k]);
            }
        }
        let last = self.data.len() - 1;
        self.sift_up(last);
    }

    /// Takes out an entry with the smallest key; `None` when the heap is
    /// empty.
    pub fn pop(&mut self) -> (top: Option<T>)
        requires
            old(self).wf(),
        ensures
            final(self).wf(),
            top is None <==> old(self).slots().len() == 0,
            top matches Some(least) ==> least == old(self).slots()[0],
            final(self).slots() == without_least(old(self).slots()),
            top is None ==> old(self)@.len() == 0 && final(self)@ == old(self)@,
            top matches Some(least) ==> old(self)@.count(least) > 0 && final(self)@ == old(
                self,
            )@.remove(least) && forall|e: T| old(self)@.count(e) > 0 ==> least.key() <= e.key(),
    {
        let ghost before = self.keys();
        let ghost entries = self.data@;
        proof {
            entries.to_multiset_ensures();
        }
        let last = match self.data.pop() {
            Some(e) => e,
            None => {
                return None;
            },
        };
        proof {
            broadcast use vstd::multiset::group_multiset_axioms;

            let rest = self.data@;
            assert(entries =~= rest.push(last));
            to_multiset_build(rest, last);
            assert(rest.to_multiset() =~= entries.to_multiset().remove(last));
            assert forall|e: T| entries.to_multiset().count(e) > 0 implies entries[0].key()
                <= e.key() by {
                let k = choose|k: int| 0 <= k < entries.len() && entries[k] == e;
                lemma_root_least(before, k);
            }
        }
        if self.data.len() == 0 {
            proof {
                assert(heap_ordered(self.keys()));
            }
            return Some(last);
        }
        let top = self.data[0];
        let ghost rest = self.data@;
        self.data[0] = last;
        proof {
            broadcast use vstd::multiset::group_multiset_axioms;

            to_multiset_update(rest, 0, last);
            rest.to_multiset_ensures();
            assert(self.data@.to_multiset() =~= entries.to_multiset().remove(top));
            let after = self.keys();
            assert forall|k: int| 1 <= k < after.len() && parent(k) != 0 implies after[parent(k)]
                <= #[trigger] after[k] by {
                assert(before[parent(k)] <= before[k]);
            }
        }
        self.sift_down();
        Some(top)
    }
}

} // verus!
