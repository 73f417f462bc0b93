use vstd::prelude::*;

use crate::{cloned_option, value_at};

verus! {

/// A node of a singly linked list.
pub struct Node<T> {
    val: T,
    next: Option<Box<Node<T>>>,
}

/// A singly linked list that owns its nodes through boxes, with its length.
pub struct MyLinkedList<T> {
    len: i32,
    head: Option<Box<Node<T>>>,
}

/// The values of the nodes reachable from `link`, in order.
pub closed spec fn values_of<T>(link: Option<Box<Node<T>>>) -> Seq<T>
    decreases link,
{
    match link {
        None => Seq::empty(),
        Some(node) => seq![node.val].add(values_of(node.next)),
    }
}

/// The values after `add_at_index(index, val)` on a list holding `s`: `val` is
/// inserted when `0 <= index <= len`, and nothing changes otherwise.
pub open spec fn after_add_at_index<T>(s: Seq<T>, index: int, val: T) -> Seq<T> {
    if 0 <= index <= s.len() {
        s.insert(index, val)
    } else {
        s
    }
}

/// The values after `delete_at_index(index)`, for `index >= 0`, on a list holding
/// `s`: the value at `index` is removed when `index < len`, and nothing changes
/// otherwise.
pub open spec fn after_delete_at_index<T>(s: Seq<T>, index: int) -> Seq<T> {
    if index < s.len() {
        s.remove(index)
    } else {
        s
    }
}

impl<T> View for MyLinkedList<T> {
    type V = Seq<T>;

    /// The values of the list, from head to tail.
    closed spec fn view(&self) -> Seq<T> {
        values_of(self.head)
    }
}

impl<T> Node<T> {
    /// Appends a node holding `val` after the last node reachable from `link`.
    fn append(link: &mut Option<Box<Node<T>>>, val: T)
        ensures
            values_of(*final(link)) == values_of(*old(link)).push(val),
        decreases *old(link),
    {
        match link.take() {
            None => {
                *link = Some(Box::new(Node { val, next: None }));
                assert(values_of(*link) =~= values_of(*old(link)).push(val));
            },
            Some(mut node) => {
                Self::append(&mut node.next, val);
                *link = Some(node);
                assert(values_of(*link) =~= values_of(*old(link)).push(val));
            },
        }
    }

    /// Inserts a node holding `val` at position `index` of the nodes reachable
    /// from `link`.
    fn insert(link: &mut Option<Box<Node<T>>>, index: usize, val: T)
        requires
            index <= values_of(*old(link)).len(),
        ensures
            values_of(*final(link)) == values_of(*old(link)).insert(index as int, val),
        decreases *old(link),
    {
        if index == 0 {
            let rest = link.take();
            *link = Some(Box::new(Node { val, next: rest }));
            assert(values_of(*link) =~= values_of(*old(link)).insert(index as int, val));
        } else {
            match link.take() {
                None => {
                    proof { assert(false); }
                },
                Some(mut node) => {
                    Self::insert(&mut node.next, index - 1, val);
                    *link = Some(node);
                    assert(values_of(*link) =~= values_of(*old(link)).insert(index as int, val));
                },
            }
        }
    }

    /// Removes the node at position `index` of the nodes reachable from `link`.
    fn remove(link: &mut Option<Box<Node<T>>>, index: usize)
        requires
            index < values_of(*old(link)).len(),
        ensures
            values_of(*final(link)) == values_of(*old(link)).remove(index as int),
        decreases *old(link),
    {
        match link.take() {
            None => {
                proof { assert(false); }
            },
            Some(mut node) => {
                if index == 0 {
                    *link = node.next;
                    assert(values_of(*link) =~= values_of(*old(link)).remove(index as int));
                } else {
                    Self::remove(&mut node.next, index - 1);
                    *link = Some(node);
                    assert(values_of(*link) =~= values_of(*old(link)).remove(index as int));
                }
            },
        }
    }
}

impl<T> MyLinkedList<T> {
    /// The stored length is the number of nodes.
    pub closed spec fn wf(&self) -> bool {
        self.len >= 0 && self.len as int == values_of(self.head).len()
    }

    /// Creates an empty list.
    pub fn new() -> (list: Self)
        ensures
            list.wf(),
            list@ == Seq::<T>::empty(),
    {
        MyLinkedList { len: 0, head: None }
    }

    /// Returns a clone of the value at position `index`, or `None` when `index`
    /// is out of range.
    pub fn get(&self, index: i32) -> (res: Option<T>)
        where T: Clone
        requires
            self.wf(),
        ensures
            cloned_option(value_at(self@, index as int), res),
    {
        let mut cur_index: i32 = 0;
        let mut cur_node: &Option<Box<Node<T>>> = &self.head;
        while cur_index < self.len
            invariant
                self.wf(),
                0 <= cur_index <= self.len,
                values_of(*cur_node) == self@.skip(cur_index as int),
                !(0 <= index < cur_index),
            decreases self.len - cur_index,
        {
            match cur_node {
                Some(node) => {
                    assert(values_of(*cur_node) == seq![node.val].add(values_of(node.next)));
                    assert(self@.skip(cur_index as int)[0] == self@[cur_index as int]);
                    if cur_index == index {
                        return Some(node.val.clone());
                    }
                    assert(self@.skip(cur_index + 1) =~= self@.skip(cur_index as int).drop_first());
                    assert(values_of(node.next) =~= self@.skip(cur_index + 1));
                    cur_node = &node.next;
                },
                None => {
                    proof { assert(false); }
                },
            }
            cur_index = cur_index + 1;
        }
        None
    }

    /// Adds a value in front of the list.
    pub fn add_at_head(&mut self, val: T)
        requires
            old(self).wf(),
            old(self)@.len() < i32::MAX,
        ensures
            final(self).wf(),
            final(self)@ == seq![val].add(old(self)@),
    {
        let new_node = Box::new(Node { val, next: self.head.take() });
        self.head = Some(new_node);
        self.len = self.len + 1;
    }

    /// Adds a value at the end of the list.
    pub fn add_at_tail(&mut self, val: T)
        requires
            old(self).wf(),
            old(self)@.len() < i32::MAX,
        ensures
            final(self).wf(),
            final(self)@ == old(self)@.push(val),
    {
        if self.head.is_none() {
            self.add_at_head(val);
            assert(self@ =~= old(self)@.push(val));
            return;
        }
        Node::append(&mut self.head, val);
        self.len = self.len + 1;
    }

    /// Inserts a value at position `index` when `0 <= index <= len`; leaves the
    /// list unchanged otherwise.
    pub fn add_at_index(&mut self, index: i32, val: T)
        requires
            old(self).wf(),
            0 <= index <= old(self)@.len() ==> old(self)@.len() < i32::MAX,
        ensures
            final(self).wf(),
            final(self)@ == after_add_at_index(old(self)@, index as int, val),
    {
        if index == 0 {
            self.add_at_head(val);
            assert(self@ =~= old(self)@.insert(index as int, val));
            return;
        }
        if index == self.len {
            self.add_at_tail(val);
            assert(self@ =~= old(self)@.insert(index as int, val));
            return;
        }
        if 0 < index && index < self.len {
            Node::insert(&mut self.head, index as usize, val);
            self.len = self.len + 1;
        }
    }

    /// Removes the value at position `index` when `index < len`; leaves the list
    /// unchanged otherwise.
    pub fn delete_at_index(&mut self, index: i32)
        requires
            old(self).wf(),
            index >= 0,
        ensures
            final(self).wf(),
            final(self)@ == after_delete_at_index(old(self)@, index as int),
    {
        if index >= self.len {
            return;
        }
        Node::remove(&mut self.head, index as usize);
        self.len = self.len - 1;
    }

    /// Clones of the values, from head to tail.
    pub fn values(&self) -> (res: Vec<T>)
        where T: Clone
        requires
            self.wf(),
        ensures
            res@.len() == self@.len(),
            forall|i: int| 0 <= i < self@.len() ==> cloned::<T>(self@[i], #[trigger] res@[i]),
    {
        let mut res: Vec<T> = Vec::new();
        let mut cur_index: i32 = 0;
        let mut cur_node: &Option<Box<Node<T>>> = &self.head;
        while cur_index < self.len
            invariant
                self.wf(),
                0 <= cur_index <= self.len,
                res@.len() == cur_index,
                values_of(*cur_node) == self@.skip(cur_index as int),
                forall|j: int| 0 <= j < cur_index ==> cloned::<T>(self@[j], #[trigger] res@[j]),
            decreases self.len - cur_index,
        {
            match cur_node {
                Some(node) => {
                    assert(self@.skip(cur_index as int)[0] == self@[cur_index as int]);
                    assert(values_of(*cur_node) == seq![node.val].add(values_of(node.next)));
                    res.push(node.val.clone());
                    assert(self@.skip(cur_index + 1) =~= self@.skip(cur_index as int).drop_first());
                    assert(values_of(node.next) =~= self@.skip(cur_index + 1));
                    cur_node = &node.next;
                },
                None => {
                    proof { assert(false); }
                },
            }
            cur_index = cur_index + 1;
        }
        res
    }
}


/// On a list holding `s`: `add_at_index(i, val)` followed by `delete_at_index(i)`
/// leaves `s`, also when `i` is out of range and both do nothing; when `val` was
/// added, `get(i)` finds it in between.
pub proof fn add_then_delete_at_index_restores<T>(s: Seq<T>, i: int, val: T)
    requires
        i >= 0,
    ensures
        after_delete_at_index(after_add_at_index(s, i, val), i) == s,
        i <= s.len() ==> value_at(after_add_at_index(s, i, val), i) == Some(val),
{
    if i <= s.len() {
        assert(s.insert(i, val).remove(i) =~= s);
    }
}

/// `add_at_head(val)` does what `add_at_index(0, val)` does, and `add_at_tail(val)`
/// what `add_at_index(len, val)` does.
pub proof fn adds_at_the_ends_are_adds_at_index<T>(s: Seq<T>, val: T)
    ensures
        seq![val] + s == after_add_at_index(s, 0, val),
        s.push(val) == after_add_at_index(s, s.len() as int, val),
{
    assert(seq![val] + s =~= s.insert(0, val));
    assert(s.push(val) =~= s.insert(s.len() as int, val));
}

} // verus!
