use vstd::prelude::*;

use crate::{cloned_option, value_at};

verus! {

/// A doubly linked list.
///
/// The nodes live in an arena made of three parallel vectors: slot `k` holds a
/// value, the slot of its predecessor and the slot of its successor.  The arena
/// is kept dense: removing a node moves the node of the last slot into the freed
/// one and relinks its neighbours, so the arena always has exactly `len` slots.
pub struct MyLinkedList<T> {
    vals: Vec<T>,
    prevs: Vec<Option<usize>>,
    nexts: Vec<Option<usize>>,
    head: Option<usize>,
    tail: Option<usize>,
    len: usize,
    /// The slots in list order.
    order: Ghost<Seq<usize>>,
    /// The list position of each slot (the inverse of `order`).
    pos: Ghost<Seq<int>>,
}

/// `order` lists the slots `0..n`, each once, and `pos` is its inverse.
spec fn permutation(order: Seq<usize>, pos: Seq<int>, n: int) -> bool {
    &&& order.len() == n
    &&& pos.len() == n
    &&& forall|i: int| 0 <= i < n ==> (#[trigger] order[i]) < n && pos[order[i] as int] == i
    &&& forall|a: int| 0 <= a < n ==> 0 <= #[trigger] pos[a] < n && order[pos[a]] == a
}

/// `head`, `tail`, `prevs` and `nexts` link the slots of `order` in that order.
spec fn chain(
    order: Seq<usize>,
    head: Option<usize>,
    tail: Option<usize>,
    prevs: Seq<Option<usize>>,
    nexts: Seq<Option<usize>>,
) -> bool {
    let n = order.len() as int;
    &&& if n == 0 {
        head is None && tail is None
    } else {
        head == Some(order[0]) && tail == Some(order[n - 1])
    }
    &&& forall|i: int|
        0 <= i < n ==> #[trigger] nexts[order[i] as int] == (if i + 1 < n {
            Some(order[i + 1])
        } else {
            None
        })
    &&& forall|i: int|
        0 <= i < n ==> #[trigger] prevs[order[i] as int] == (if i > 0 {
            Some(order[i - 1])
        } else {
            None
        })
}

/// The slot that `x` names once the node of slot `last` has moved into slot `k`.
spec fn relabel(x: usize, k: usize, last: usize) -> usize {
    if x == last {
        k
    } else {
        x
    }
}

/// The slot whose node lands in slot `a` when the node of slot `last` moves into slot `k`.
spec fn source_slot(a: int, k: usize, last: usize) -> int {
    if a == k {
        last as int
    } else {
        a
    }
}

/// The positions of the slots after the node at position `p`, in slot `k`, is
/// removed and the node of slot `last` moves into slot `k`.
spec fn compacted_pos(pos: Seq<int>, p: int, k: usize, last: usize) -> Seq<int> {
    Seq::new(
        last as nat,
        |a: int|
            {
                let b = source_slot(a, k, last);
                if pos[b] > p {
                    pos[b] - 1
                } else {
                    pos[b]
                }
            },
    )
}

/// The values, and the value removed, after `delete_at_index(index)` on a list
/// holding `s`.
pub open spec fn after_delete<T>(s: Seq<T>, index: int) -> (Seq<T>, Option<T>) {
    if 0 <= index < s.len() {
        (s.remove(index), Some(s[index]))
    } else {
        (s, None)
    }
}

/// The values, and the value removed, after `pop_at_head` on a list holding `s`.
pub open spec fn after_pop_head<T>(s: Seq<T>) -> (Seq<T>, Option<T>) {
    if s.len() == 0 {
        (s, None)
    } else {
        (s.drop_first(), Some(s[0]))
    }
}

/// The values, and the value removed, after `pop_at_tail` on a list holding `s`.
pub open spec fn after_pop_tail<T>(s: Seq<T>) -> (Seq<T>, Option<T>) {
    if s.len() == 0 {
        (s, None)
    } else {
        (s.drop_last(), Some(s.last()))
    }
}

impl<T> View for MyLinkedList<T> {
    type V = Seq<T>;

    /// The values of the list, from head to tail.
    closed spec fn view(&self) -> Seq<T> {
        Seq::new(self.len as nat, |i: int| self.vals@[self.order@[i] as int])
    }
}

impl<T> MyLinkedList<T> {
    /// Well-formedness: `order` is a permutation of the arena slots, `pos` is its
    /// inverse, and `head`, `tail`, `prevs` and `nexts` are the links that `order`
    /// describes.
    pub closed spec fn wf(&self) -> bool {
        let n = self.len as int;
        &&& self.vals@.len() == n
        &&& self.prevs@.len() == n
        &&& self.nexts@.len() == n
        &&& n <= i32::MAX
        &&& permutation(self.order@, self.pos@, n)
        &&& chain(self.order@, self.head, self.tail, self.prevs@, self.nexts@)
    }

    /// The stored length is the length of the view, and fits in an `i32`.
    proof fn lemma_len(&self)
        requires
            self.wf(),
        ensures
            self@.len() == self.len,
            self.len <= i32::MAX,
    {
    }

    /// Creates an empty list.
    pub fn new() -> (list: Self)
        ensures
            list.wf(),
            list@ == Seq::<T>::empty(),
    {
        let list = MyLinkedList {
            vals: Vec::new(),
            prevs: Vec::new(),
            nexts: Vec::new(),
            head: None,
            tail: None,
            len: 0,
            order: Ghost(Seq::empty()),
            pos: Ghost(Seq::empty()),
        };
        assert(list@ =~= Seq::<T>::empty());
        list
    }

    /// The slot that holds the value at position `index`, found by walking
    /// `index` links from the head.
    fn slot_at(&self, index: usize) -> (slot: usize)
        requires
            self.wf(),
            index < self.len,
        ensures
            slot == self.order@[index as int],
            slot < self.len,
    {
        let mut cur = match self.head {
            Some(h) => h,
            None => { proof { assert(false); } 0 },
        };
        let mut i: usize = 0;
        while i < index
            invariant
                self.wf(),
                index < self.len,
                i <= index,
                cur == self.order@[i as int],
            decreases index - i,
        {
            assert(self.nexts@[self.order@[i as int] as int] == Some(self.order@[i + 1]));
            cur = match self.nexts[cur] {
                Some(c) => c,
                None => { proof { assert(false); } 0 },
            };
            i = i + 1;
        }
        cur
    }

    /// Adds a value in front of the list.
    pub fn add_at_head(&mut self, val: T)
        requires
            old(self).wf(),
            old(self)@.len() < i32::MAX,
        ensures
            final(self).wf(),
            final(self)@ == seq![val].add(old(self)@),
    {
        let ghost old_view = self@;
        let ghost old_order = self.order@;
        let ghost old_pos = self.pos@;
        let ghost n = self.len as int;
        let k = self.len;
        self.vals.push(val);
        self.prevs.push(None);
        self.nexts.push(self.head);
        match self.head {
            Some(h) => {
                self.prevs.set(h, Some(k));
            },
            None => {
                self.tail = Some(k);
            },
        }
        self.head = Some(k);
        self.len = self.len + 1;
        self.order = Ghost(seq![k].add(old_order));
        self.pos = Ghost(Seq::new((n + 1) as nat, |a: int| if a == n { 0 } else { old_pos[a] + 1 }));
        proof {
            let order = self.order@;
            assert forall|i: int| 0 <= i < n + 1 implies (#[trigger] order[i]) < n + 1
                && self.pos@[order[i] as int] == i by {
                if i > 0 {
                    assert(order[i] == old_order[i - 1]);
                }
            }
            assert forall|i: int| 0 <= i < n + 1 implies #[trigger] self.nexts@[order[i] as int]
                == (if i + 1 < n + 1 {
                Some(order[i + 1])
            } else {
                None
            }) by {
                if i > 0 {
                    assert(order[i] == old_order[i - 1]);
                }
            }
            assert forall|i: int| 0 <= i < n + 1 implies #[trigger] self.prevs@[order[i] as int]
                == (if i > 0 {
                Some(order[i - 1])
            } else {
                None
            }) by {
                if i > 0 {
                    assert(order[i] == old_order[i - 1]);
                    if i > 1 {
                        assert(order[i - 1] == old_order[i - 2]);
                    }
                }
            }
            assert(self@ =~= seq![val].add(old_view));
        }
    }

    /// Adds a value at the end of the list.
    pub fn add_at_tail(&mut self, val: T)
        requires
            old(self).wf(),
            old(self)@.len() < i32::MAX,
        ensures
            final(self).wf(),
            final(self)@ == old(self)@.push(val),
    {
        let ghost old_view = self@;
        let ghost old_order = self.order@;
        let ghost old_pos = self.pos@;
        let ghost n = self.len as int;
        let k = self.len;
        self.vals.push(val);
        self.prevs.push(self.tail);
        self.nexts.push(None);
        match self.tail {
            Some(t) => {
                self.nexts.set(t, Some(k));
            },
            None => {
                self.head = Some(k);
            },
        }
        self.tail = Some(k);
        self.len = self.len + 1;
        self.order = Ghost(old_order.push(k));
        self.pos = Ghost(old_pos.push(n));
        proof {
            let order = self.order@;
            assert forall|i: int| 0 <= i < n + 1 implies #[trigger] self.nexts@[order[i] as int]
                == (if i + 1 < n + 1 {
                Some(order[i + 1])
            } else {
                None
            }) by {
                if i < n {
                    assert(order[i] == old_order[i]);
                }
            }
            assert forall|i: int| 0 <= i < n + 1 implies #[trigger] self.prevs@[order[i] as int]
                == (if i > 0 {
                Some(order[i - 1])
            } else {
                None
            }) by {
                if i < n {
                    assert(order[i] == old_order[i]);
                }
            }
            assert(self@ =~= old_view.push(val));
        }
    }

    /// Inserts a value at position `index`, between the nodes at positions
    /// `index - 1` and `index`.
    fn insert_between(&mut self, index: usize, val: T)
        requires
            old(self).wf(),
            0 < index < old(self)@.len(),
            old(self)@.len() < i32::MAX,
        ensures
            final(self).wf(),
            final(self)@ == old(self)@.insert(index as int, val),
    {
        let ghost old_view = self@;
        let ghost old_order = self.order@;
        let ghost old_pos = self.pos@;
        let ghost n = self.len as int;
        let front = self.slot_at(index - 1);
        assert(self.nexts@[old_order[index - 1] as int] == Some(old_order[index as int]));
        let back = match self.nexts[front] {
            Some(b) => b,
            None => { proof { assert(false); } 0 },
        };
        let k = self.len;
        self.vals.push(val);
        self.prevs.push(Some(front));
        self.nexts.push(Some(back));
        self.nexts.set(front, Some(k));
        self.prevs.set(back, Some(k));
        self.len = self.len + 1;
        self.order = Ghost(old_order.insert(index as int, k));
        self.pos = Ghost(
            Seq::new(
                (n + 1) as nat,
                |a: int|
                    if a == n {
                        index as int
                    } else if old_pos[a] >= index {
                        old_pos[a] + 1
                    } else {
                        old_pos[a]
                    },
            ),
        );
        proof {
            let order = self.order@;
            let pos = self.pos@;
            assert forall|i: int| 0 <= i < n + 1 implies (#[trigger] order[i]) < n + 1
                && pos[order[i] as int] == i by {
                if i < index {
                    assert(order[i] == old_order[i]);
                } else if i > index {
                    assert(order[i] == old_order[i - 1]);
                }
            }
            assert forall|a: int| 0 <= a < n + 1 implies 0 <= #[trigger] pos[a] < n + 1
                && order[pos[a]] == a by {
                if a < n {
                    let q = old_pos[a];
                    assert(old_order[q] == a);
                    if q >= index {
                        assert(order[q + 1] == old_order[q]);
                    } else {
                        assert(order[q] == old_order[q]);
                    }
                }
            }
            assert forall|i: int| 0 <= i < n + 1 implies #[trigger] self.nexts@[order[i] as int]
                == (if i + 1 < n + 1 {
                Some(order[i + 1])
            } else {
                None
            }) by {
                if i < index - 1 {
                    assert(order[i] == old_order[i]);
                    assert(order[i + 1] == old_order[i + 1]);
                    assert(old_order[i] != old_order[index - 1]) by {
                        assert(old_pos[old_order[i] as int] == i);
                    }
                } else if i == index - 1 {
                    assert(order[i] == old_order[i]);
                } else if i > index {
                    assert(order[i] == old_order[i - 1]);
                    assert(old_order[i - 1] != old_order[index - 1]) by {
                        assert(old_pos[old_order[i - 1] as int] == i - 1);
                    }
                    if i + 1 < n + 1 {
                        assert(order[i + 1] == old_order[i]);
                    }
                }
            }
            assert forall|i: int| 0 <= i < n + 1 implies #[trigger] self.prevs@[order[i] as int]
                == (if i > 0 {
                Some(order[i - 1])
            } else {
                None
            }) by {
                if i < index {
                    assert(order[i] == old_order[i]);
                    assert(old_order[i] != old_order[index as int]) by {
                        assert(old_pos[old_order[i] as int] == i);
                    }
                    if i > 0 {
                        assert(order[i - 1] == old_order[i - 1]);
                    }
                } else if i == index + 1 {
                    assert(order[i] == old_order[index as int]);
                } else if i > index + 1 {
                    assert(order[i] == old_order[i - 1]);
                    assert(order[i - 1] == old_order[i - 2]);
                    assert(old_order[i - 1] != old_order[index as int]) by {
                        assert(old_pos[old_order[i - 1] as int] == i - 1);
                    }
                }
            }
            assert(self@ =~= old_view.insert(index as int, val));
        }
    }

    /// Inserts a value at position `index`: at the head when `index` is 0, at
    /// the tail when `index` is the length, between two nodes otherwise.
    pub fn add_at_index(&mut self, index: i32, val: T)
        requires
            old(self).wf(),
            0 <= index <= old(self)@.len(),
            old(self)@.len() < i32::MAX,
        ensures
            final(self).wf(),
            final(self)@ == old(self)@.insert(index as int, val),
    {
        proof { self.lemma_len(); }
        if index == 0 {
            self.add_at_head(val);
            assert(self@ =~= old(self)@.insert(index as int, val));
            return;
        }
        if self.len as i32 == index {
            self.add_at_tail(val);
            assert(self@ =~= old(self)@.insert(index as int, val));
            return;
        }
        self.insert_between(index as usize, val);
    }

    /// Returns a clone of the value at position `index`, or `None` when `index`
    /// is out of range.
    pub fn get(&self, index: i32) -> (res: Option<T>)
        where T: Clone
        requires
            self.wf(),
        ensures
            cloned_option(value_at(self@, index as int), res),
    {
        proof { self.lemma_len(); }
        if index < 0 || index >= self.len as i32 {
            return None;
        }
        let slot = self.slot_at(index as usize);
        Some(self.vals[slot].clone())
    }

    /// Removes the value at the head and returns a clone of it; `None` when the
    /// list is empty.
    pub fn pop_at_head(&mut self) -> (res: Option<T>)
        where T: Clone
        requires
            old(self).wf(),
        ensures
            final(self).wf(),
            final(self)@ == after_pop_head(old(self)@).0,
            cloned_option(after_pop_head(old(self)@).1, res),
    {
        if self.len == 0 {
            return None;
        }
        let h = match self.head {
            Some(h) => h,
            None => { proof { assert(false); } 0 },
        };
        let val = self.remove_at(0, h);
        assert(self@ =~= old(self)@.drop_first());
        Some(val.clone())
    }

    /// Removes the value at the tail and returns a clone of it; `None` when the
    /// list is empty.
    pub fn pop_at_tail(&mut self) -> (res: Option<T>)
        where T: Clone
        requires
            old(self).wf(),
        ensures
            final(self).wf(),
            final(self)@ == after_pop_tail(old(self)@).0,
            cloned_option(after_pop_tail(old(self)@).1, res),
    {
        if self.len == 0 {
            return None;
        }
        let t = match self.tail {
            Some(t) => t,
            None => { proof { assert(false); } 0 },
        };
        let val = self.remove_at(self.len - 1, t);
        assert(self@ =~= old(self)@.drop_last());
        Some(val.clone())
    }

    /// Removes the value at position `index` and returns a clone of it; `None`,
    /// with the list unchanged, when `index` is out of range.
    pub fn delete_at_index(&mut self, index: i32) -> (res: Option<T>)
        where T: Clone
        requires
            old(self).wf(),
        ensures
            final(self).wf(),
            final(self)@ == after_delete(old(self)@, index as int).0,
            cloned_option(after_delete(old(self)@, index as int).1, res),
    {
        proof { self.lemma_len(); }
        if index == 0 {
            let res = self.pop_at_head();
            assert(old(self)@.len() > 0 ==> self@ =~= old(self)@.remove(0));
            return res;
        }
        if index == self.len as i32 - 1 {
            let res = self.pop_at_tail();
            assert(old(self)@.len() > 0 ==> self@ =~= old(self)@.remove(index as int));
            return res;
        }
        if index < 0 || index >= self.len as i32 {
            return None;
        }
        let front = self.slot_at(index as usize - 1);
        assert(self.nexts@[self.order@[index - 1] as int] == Some(self.order@[index as int]));
        let target = match self.nexts[front] {
            Some(t) => t,
            None => { proof { assert(false); } 0 },
        };
        let val = self.remove_at(index as usize, target);
        Some(val.clone())
    }

    /// Clones of the values, collected by walking the `next` links from the head.
    pub fn values(&self) -> (res: Vec<T>)
        where T: Clone
        requires
            self.wf(),
        ensures
            res@.len() == self@.len(),
            forall|i: int| 0 <= i < self@.len() ==> cloned::<T>(self@[i], #[trigger] res@[i]),
    {
        let mut res: Vec<T> = Vec::new();
        let mut cur = self.head;
        let mut i: usize = 0;
        while i < self.len
            invariant
                self.wf(),
                i <= self.len,
                res@.len() == i,
                forall|j: int| 0 <= j < i ==> cloned::<T>(self@[j], #[trigger] res@[j]),
                i < self.len ==> cur == Some(self.order@[i as int]),
            decreases self.len - i,
        {
            let c = match cur {
                Some(c) => c,
                None => { proof { assert(false); } 0 },
            };
            res.push(self.vals[c].clone());
            cur = self.nexts[c];
            i = i + 1;
        }
        res
    }

    /// Clones of the values, collected by walking the `prev` links from the tail
    /// and then put back in head-to-tail order.
    pub fn values_from_tail(&self) -> (res: Vec<T>)
        where T: Clone
        requires
            self.wf(),
        ensures
            res@.len() == self@.len(),
            forall|i: int| 0 <= i < self@.len() ==> cloned::<T>(self@[i], #[trigger] res@[i]),
    {
        let ghost n = self.len as int;
        let mut back: Vec<T> = Vec::new();
        let mut cur = self.tail;
        let mut i: usize = 0;
        while i < self.len
            invariant
                self.wf(),
                n == self.len,
                i <= self.len,
                back@.len() == i,
                forall|j: int| 0 <= j < i ==> cloned::<T>(self@[n - 1 - j], #[trigger] back@[j]),
                i < self.len ==> cur == Some(self.order@[n - 1 - i]),
            decreases self.len - i,
        {
            let c = match cur {
                Some(c) => c,
                None => { proof { assert(false); } 0 },
            };
            back.push(self.vals[c].clone());
            cur = self.prevs[c];
            i = i + 1;
        }
        let mut res: Vec<T> = Vec::new();
        while back.len() > 0
            invariant
                self.wf(),
                n == self.len,
                back@.len() + res@.len() == n,
                forall|j: int| 0 <= j < back@.len() ==> cloned::<T>(self@[n - 1 - j], #[trigger] back@[j]),
                forall|j: int| 0 <= j < res@.len() ==> cloned::<T>(self@[j], #[trigger] res@[j]),
            decreases back@.len(),
        {
            let ghost b = back@;
            match back.pop() {
                Some(x) => {
                    proof {
                        assert(cloned::<T>(self@[n - 1 - (b.len() - 1)], b[b.len() - 1]));
                    }
                    res.push(x);
                    proof {
                        assert forall|j: int| 0 <= j < back@.len() implies cloned::<T>(
                            self@[n - 1 - j],
                            #[trigger] back@[j],
                        ) by {
                            assert(back@[j] == b[j]);
                        }
                    }
                },
                None => {},
            }
        }
        res
    }

    /// Unlinks the node at position `p`, held in slot `k`, from its neighbours.
    /// The arena and the ghost permutation are left as they are.
    fn unlink(&mut self, p: usize, k: usize)
        requires
            old(self).wf(),
            p < old(self).len,
            k == old(self).order@[p as int],
        ensures
            final(self).vals == old(self).vals,
            final(self).len == old(self).len,
            final(self).order == old(self).order,
            final(self).pos == old(self).pos,
            final(self).prevs@.len() == old(self).len,
            final(self).nexts@.len() == old(self).len,
            chain(
                old(self).order@.remove(p as int),
                final(self).head,
                final(self).tail,
                final(self).prevs@,
                final(self).nexts@,
            ),
    {
        let ghost order = self.order@;
        let ghost pos = self.pos@;
        let ghost n = self.len as int;
        let pr = self.prevs[k];
        let nx = self.nexts[k];
        match pr {
            Some(a) => {
                self.nexts.set(a, nx);
            },
            None => {
                self.head = nx;
            },
        }
        match nx {
            Some(b) => {
                self.prevs.set(b, pr);
            },
            None => {
                self.tail = pr;
            },
        }
        proof {
            let order1 = order.remove(p as int);
            let prevs1 = self.prevs@;
            let nexts1 = self.nexts@;
            assert forall|i: int| 0 <= i < n - 1 implies #[trigger] nexts1[order1[i] as int] == (
            if i + 1 < n - 1 {
                Some(order1[i + 1])
            } else {
                None
            }) by {
                if i < p {
                    assert(order1[i] == order[i]);
                    if i == p - 1 {
                        assert(pr == Some(order[i]));
                    } else {
                        assert(order1[i + 1] == order[i + 1]);
                        assert(pos[order[i] as int] == i);
                        assert(pos[order[p - 1] as int] == p - 1);
                    }
                } else {
                    assert(order1[i] == order[i + 1]);
                    assert(pos[order[i + 1] as int] == i + 1);
                    if p > 0 {
                        assert(pos[order[p - 1] as int] == p - 1);
                    }
                    if i + 1 < n - 1 {
                        assert(order1[i + 1] == order[i + 2]);
                    }
                }
            }
            assert forall|i: int| 0 <= i < n - 1 implies #[trigger] prevs1[order1[i] as int] == (
            if i > 0 {
                Some(order1[i - 1])
            } else {
                None
            }) by {
                if i < p {
                    assert(order1[i] == order[i]);
                    assert(pos[order[i] as int] == i);
                    if p + 1 < n {
                        assert(pos[order[p + 1] as int] == p + 1);
                    }
                    if i > 0 {
                        assert(order1[i - 1] == order[i - 1]);
                    }
                } else {
                    assert(order1[i] == order[i + 1]);
                    if i == p {
                        assert(nx == Some(order[i + 1]));
                    } else {
                        assert(order1[i - 1] == order[i]);
                        assert(pos[order[i + 1] as int] == i + 1);
                        assert(pos[order[p + 1] as int] == p + 1);
                    }
                }
            }
            if n - 1 > 0 {
                assert(self.head == Some(order1[0]));
                assert(self.tail == Some(order1[n - 2]));
            }
        }
    }

    /// Removes the node at position `p`, held in slot `k`, and returns its value.
    ///
    /// The node is first unlinked from its neighbours; then the node of the last
    /// slot is moved into slot `k` and its neighbours are relinked to it.
    fn remove_at(&mut self, p: usize, k: usize) -> (val: T)
        requires
            old(self).wf(),
            p < old(self)@.len(),
            k == old(self).order@[p as int],
        ensures
            final(self).wf(),
            final(self)@ == old(self)@.remove(p as int),
            val == old(self)@[p as int],
    {
        let ghost old_view = self@;
        let ghost order = self.order@;
        let ghost pos = self.pos@;
        let ghost n = self.len as int;
        let ghost old_vals = self.vals@;
        let last = self.len - 1;
        self.unlink(p, k);
        let ghost order1 = order.remove(p as int);
        let ghost prevs1 = self.prevs@;
        let ghost nexts1 = self.nexts@;
        let ghost head1 = self.head;
        let ghost tail1 = self.tail;
        proof {
            if k != last {
                lemma_moved_neighbours(order, pos, head1, tail1, prevs1, nexts1, p as int, k, last);
            }
        }
        // compact the arena: the node of the last slot moves into slot `k`
        let val = self.vals.swap_remove(k);
        self.prevs.swap_remove(k);
        self.nexts.swap_remove(k);
        proof {
            if k == last {
                assert(self.prevs@ =~= prevs1.drop_last());
                assert(self.nexts@ =~= nexts1.drop_last());
            }
        }
        if k != last {
            let mp = self.prevs[k];
            let mn = self.nexts[k];
            match mp {
                Some(a) => {
                    self.nexts.set(a, Some(k));
                },
                None => {
                    self.head = Some(k);
                },
            }
            match mn {
                Some(b) => {
                    self.prevs.set(b, Some(k));
                },
                None => {
                    self.tail = Some(k);
                },
            }
        }
        self.len = self.len - 1;
        self.order = Ghost(order1.map_values(|x: usize| relabel(x, k, last)));
        self.pos = Ghost(compacted_pos(pos, p as int, k, last));
        proof {
            lemma_compacted_permutation(order, pos, p as int, k, last);
            lemma_compacted_chain(
                order,
                pos,
                head1,
                tail1,
                prevs1,
                nexts1,
                self.head,
                self.tail,
                self.prevs@,
                self.nexts@,
                p as int,
                k,
                last,
            );
            lemma_removed_order(order, pos, n, p as int);
            assert forall|i: int| 0 <= i < n - 1 implies #[trigger] self@[i] == old_view.remove(p as int)[i] by {
                let c = order1[i];
                assert(self.order@[i] == relabel(c, k, last));
            }
            assert(self@ =~= old_view.remove(p as int));
        }
        val
    }

}

/// The position in `order.remove(p)` of slot `c`.
spec fn removed_pos(pos: Seq<int>, p: int, c: int) -> int {
    if pos[c] > p {
        pos[c] - 1
    } else {
        pos[c]
    }
}

/// Removing position `p` from a permutation shifts the later positions down by one
/// and keeps the slots distinct.
proof fn lemma_removed_order(order: Seq<usize>, pos: Seq<int>, n: int, p: int)
    requires
        permutation(order, pos, n),
        0 <= p < n,
    ensures
        forall|i: int|
            0 <= i < n - 1 ==> #[trigger] order.remove(p)[i] == order[if i < p {
                i
            } else {
                i + 1
            }],
        forall|i: int| 0 <= i < n - 1 ==> (#[trigger] order.remove(p)[i]) != order[p],
        forall|i: int| 0 <= i < n - 1 ==> (#[trigger] order.remove(p)[i]) < n,
        forall|c: int|
            0 <= c < n && c != order[p] ==> 0 <= #[trigger] removed_pos(pos, p, c) < n - 1
                && order.remove(p)[removed_pos(pos, p, c)] == c,
        forall|i: int, j: int|
            0 <= i < n - 1 && 0 <= j < n - 1 && i != j ==> #[trigger] order.remove(p)[i]
                != #[trigger] order.remove(p)[j],
{
    let order1 = order.remove(p);
    assert forall|i: int| 0 <= i < n - 1 implies #[trigger] order1[i] == order[if i < p {
        i
    } else {
        i + 1
    }] by {}
    assert forall|i: int| 0 <= i < n - 1 implies (#[trigger] order1[i]) != order[p] by {
        let j = if i < p { i } else { i + 1 };
        assert(pos[order[j] as int] == j);
        assert(pos[order[p] as int] == p);
    }
    assert forall|c: int| 0 <= c < n && c != order[p] implies 0 <= #[trigger] removed_pos(pos, p, c)
        < n - 1 && order1[removed_pos(pos, p, c)] == c by {
        assert(order[pos[c]] == c);
    }
    assert forall|i: int, j: int|
        0 <= i < n - 1 && 0 <= j < n - 1 && i != j implies #[trigger] order1[i]
        != #[trigger] order1[j] by {
        let i0 = if i < p { i } else { i + 1 };
        let j0 = if j < p { j } else { j + 1 };
        assert(pos[order[i0] as int] == i0);
        assert(pos[order[j0] as int] == j0);
    }
}

/// After the node of slot `last` moves into slot `k`, the relabelled order and the
/// compacted positions form a permutation of the smaller arena.
proof fn lemma_compacted_permutation(order: Seq<usize>, pos: Seq<int>, p: int, k: usize, last: usize)
    requires
        permutation(order, pos, last + 1),
        0 <= p <= last,
        k == order[p],
    ensures
        permutation(
            order.remove(p).map_values(|x: usize| relabel(x, k, last)),
            compacted_pos(pos, p, k, last),
            last as int,
        ),
{
    let n = last + 1;
    lemma_removed_order(order, pos, n, p);
    let order1 = order.remove(p);
    let order2 = order1.map_values(|x: usize| relabel(x, k, last));
    let pos2 = compacted_pos(pos, p, k, last);
    assert forall|i: int| 0 <= i < n - 1 implies (#[trigger] order2[i]) < n - 1 && pos2[order2[i] as int]
        == i by {
        let j = if i < p { i } else { i + 1 };
        assert(order1[i] == order[j]);
        assert(pos[order[j] as int] == j);
    }
    assert forall|a: int| 0 <= a < n - 1 implies 0 <= #[trigger] pos2[a] < n - 1 && order2[pos2[a]]
        == a by {
        let b = source_slot(a, k, last);
        assert(order[pos[b]] == b);
        assert(removed_pos(pos, p, b) == pos2[a]);
    }
}

/// The neighbours of the node in slot `last`, once the node in slot `k` is unlinked.
proof fn lemma_moved_neighbours(
    order: Seq<usize>,
    pos: Seq<int>,
    head1: Option<usize>,
    tail1: Option<usize>,
    prevs1: Seq<Option<usize>>,
    nexts1: Seq<Option<usize>>,
    p: int,
    k: usize,
    last: usize,
)
    requires
        permutation(order, pos, last + 1),
        0 <= p <= last,
        k == order[p],
        k != last,
        chain(order.remove(p), head1, tail1, prevs1, nexts1),
    ensures
        ({
            let q1 = removed_pos(pos, p, last as int);
            let order1 = order.remove(p);
            &&& 0 <= q1 < last
            &&& order1[q1] == last
            &&& prevs1[last as int] == (if q1 > 0 {
                Some(order1[q1 - 1])
            } else {
                None
            })
            &&& nexts1[last as int] == (if q1 + 1 < last {
                Some(order1[q1 + 1])
            } else {
                None
            })
            &&& (q1 > 0 ==> order1[q1 - 1] < last && order1[q1 - 1] != k)
            &&& (q1 + 1 < last ==> order1[q1 + 1] < last && order1[q1 + 1] != k)
            &&& (q1 == 0 <==> head1 == Some(last))
            &&& (q1 + 1 == last <==> tail1 == Some(last))
        }),
{
    let n = last + 1;
    lemma_removed_order(order, pos, n, p);
    let q1 = removed_pos(pos, p, last as int);
    let order1 = order.remove(p);
    assert(order1[q1] == last);
    if q1 > 0 {
        assert(order1[q1 - 1] != order1[q1]);
    }
    if q1 + 1 < last {
        assert(order1[q1 + 1] != order1[q1]);
    }
    if head1 == Some(last) {
        assert(order1[0] == order1[q1]);
    }
    if tail1 == Some(last) {
        assert(order1[last - 1] == order1[q1]);
    }
}

/// The links of the compacted arena follow the relabelled order.
proof fn lemma_compacted_chain(
    order: Seq<usize>,
    pos: Seq<int>,
    head1: Option<usize>,
    tail1: Option<usize>,
    prevs1: Seq<Option<usize>>,
    nexts1: Seq<Option<usize>>,
    head2: Option<usize>,
    tail2: Option<usize>,
    prevs2: Seq<Option<usize>>,
    nexts2: Seq<Option<usize>>,
    p: int,
    k: usize,
    last: usize,
)
    requires
        permutation(order, pos, last + 1),
        0 <= p <= last,
        k == order[p],
        prevs1.len() == last + 1,
        nexts1.len() == last + 1,
        chain(order.remove(p), head1, tail1, prevs1, nexts1),
        k == last ==> {
            &&& prevs2 == prevs1.drop_last()
            &&& nexts2 == nexts1.drop_last()
            &&& head2 == head1
            &&& tail2 == tail1
        },
        k != last ==> {
            let ps = prevs1.update(k as int, prevs1[last as int]).drop_last();
            let ns = nexts1.update(k as int, nexts1[last as int]).drop_last();
            &&& nexts2 == (match ps[k as int] {
                Some(a) => ns.update(a as int, Some(k)),
                None => ns,
            })
            &&& head2 == (match ps[k as int] {
                Some(_) => head1,
                None => Some(k),
            })
            &&& prevs2 == (match ns[k as int] {
                Some(b) => ps.update(b as int, Some(k)),
                None => ps,
            })
            &&& tail2 == (match ns[k as int] {
                Some(_) => tail1,
                None => Some(k),
            })
        },
    ensures
        chain(order.remove(p).map_values(|x: usize| relabel(x, k, last)), head2, tail2, prevs2, nexts2),
{
    let n = last + 1;
    lemma_removed_order(order, pos, n, p);
    let order1 = order.remove(p);
    let order2 = order1.map_values(|x: usize| relabel(x, k, last));
    if k == last {
        assert forall|i: int| 0 <= i < n - 1 implies #[trigger] order2[i] == order1[i] by {}
        assert forall|i: int| 0 <= i < n - 1 implies #[trigger] nexts2[order2[i] as int] == (if i + 1
            < n - 1 {
            Some(order2[i + 1])
        } else {
            None
        }) by {
            assert(nexts1[order1[i] as int] == (if i + 1 < n - 1 {
                Some(order1[i + 1])
            } else {
                None
            }));
        }
        assert forall|i: int| 0 <= i < n - 1 implies #[trigger] prevs2[order2[i] as int] == (if i
            > 0 {
            Some(order2[i - 1])
        } else {
            None
        }) by {
            assert(prevs1[order1[i] as int] == (if i > 0 {
                Some(order1[i - 1])
            } else {
                None
            }));
        }
    } else {
        lemma_moved_neighbours(order, pos, head1, tail1, prevs1, nexts1, p, k, last);
        let q1 = removed_pos(pos, p, last as int);
        assert forall|i: int| 0 <= i < n - 1 implies #[trigger] nexts2[order2[i] as int] == (if i + 1
            < n - 1 {
            Some(order2[i + 1])
        } else {
            None
        }) by {
            let c = order1[i];
            assert(nexts1[c as int] == (if i + 1 < n - 1 {
                Some(order1[i + 1])
            } else {
                None
            }));
            if i != q1 {
                assert(c != order1[q1]);
            }
            if q1 > 0 && i != q1 - 1 {
                assert(c != order1[q1 - 1]);
            }
            if i + 1 < n - 1 && i + 1 != q1 {
                assert(order1[i + 1] != order1[q1]);
            }
        }
        assert forall|i: int| 0 <= i < n - 1 implies #[trigger] prevs2[order2[i] as int] == (if i
            > 0 {
            Some(order2[i - 1])
        } else {
            None
        }) by {
            let c = order1[i];
            assert(prevs1[c as int] == (if i > 0 {
                Some(order1[i - 1])
            } else {
                None
            }));
            if i != q1 {
                assert(c != order1[q1]);
            }
            if q1 + 1 < n - 1 && i != q1 + 1 {
                assert(c != order1[q1 + 1]);
            }
            if i > 0 && i - 1 != q1 {
                assert(order1[i - 1] != order1[q1]);
            }
        }
        if n - 1 > 0 {
            if q1 != 0 {
                assert(order1[0] != order1[q1]);
            }
            if q1 + 1 != n - 1 {
                assert(order1[n - 2] != order1[q1]);
            }
        }
    }
}


/// On a list holding `s`: `add_at_index(i, val)` followed by `delete_at_index(i)`
/// removes `val` again and leaves `s`; in between, `get(i)` finds `val`.
pub proof fn add_then_delete_at_index_restores<T>(s: Seq<T>, i: int, val: T)
    requires
        0 <= i <= s.len(),
    ensures
        after_delete(s.insert(i, val), i) == (s, Some(val)),
        value_at(s.insert(i, val), i) == Some(val),
{
    assert(s.insert(i, val).remove(i) =~= s);
}

/// `pop_at_head` does what `delete_at_index(0)` does, and `pop_at_tail` what
/// `delete_at_index(len - 1)` does.
pub proof fn pops_are_deletes_at_the_ends<T>(s: Seq<T>)
    ensures
        after_pop_head(s) == after_delete(s, 0),
        after_pop_tail(s) == after_delete(s, s.len() - 1),
{
    if s.len() > 0 {
        assert(s.drop_first() =~= s.remove(0));
        assert(s.drop_last() =~= s.remove(s.len() - 1));
    }
}

/// On a list holding `s`: `add_at_head(val)` followed by `pop_at_head` gives
/// `val` back and leaves `s`; likewise `add_at_tail` with `pop_at_tail`.
pub proof fn add_then_pop_restores<T>(s: Seq<T>, val: T)
    ensures
        after_pop_head(seq![val] + s) == (s, Some(val)),
        after_pop_tail(s.push(val)) == (s, Some(val)),
{
    assert((seq![val] + s).drop_first() =~= s);
    assert(s.push(val).drop_last() =~= s);
}

/// `add_at_head(val)` does what `add_at_index(0, val)` does, and `add_at_tail(val)`
/// what `add_at_index(len, val)` does.
pub proof fn adds_at_the_ends_are_adds_at_index<T>(s: Seq<T>, val: T)
    ensures
        seq![val] + s == s.insert(0, val),
        s.push(val) == s.insert(s.len() as int, val),
{
    assert(seq![val] + s =~= s.insert(0, val));
    assert(s.push(val) =~= s.insert(s.len() as int, val));
}

} // verus!
