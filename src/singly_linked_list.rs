use vstd::prelude::*;
use vstd::std_specs::cmp::PartialEqSpec;

verus! {

/// A list cell: a value and the slot of the cell after it, if any.
struct Node<T> {
    data: T,
    next: Option<usize>,
}

/// Singly linked list whose cells live in an arena of slots.
///
/// `root` is the slot of the first cell and `leaf` that of the last one, so that
/// pushing at either end takes constant time. Slots released by a removal are
/// kept on a free list and reused by later insertions.
pub struct SinglyLinkedList<T> {
    nodes: Vec<Option<Node<T>>>,
    free: Vec<usize>,
    root: Option<usize>,
    leaf: Option<usize>,
    /// The number of elements.
    pub size: u32,
    /// The slots of the cells, from the first to the last.
    chain: Ghost<Seq<usize>>,
}

impl<T> View for SinglyLinkedList<T> {
    type V = Seq<T>;

    /// The elements from first to last.
    closed spec fn view(&self) -> Seq<T> {
        Seq::new(self.chain@.len(), |i: int| self.nodes@[self.chain@[i] as int]->0.data)
    }
}

impl<T> SinglyLinkedList<T> {
    /// Each cell of the chain is an occupied slot that links to the next cell of
    /// the chain, the last cell links nowhere, and no slot is used twice.
    spec fn links_ok(&self) -> bool {
        &&& forall|i: int|
            #![trigger self.chain@[i]]
            0 <= i < self.chain@.len() ==> {
                &&& self.chain@[i] < self.nodes@.len()
                &&& self.nodes@[self.chain@[i] as int] is Some
                &&& self.nodes@[self.chain@[i] as int]->0.next == if i + 1 < self.chain@.len() {
                    Some(self.chain@[i + 1])
                } else {
                    None::<usize>
                }
            }
        &&& forall|i: int, j: int|
            0 <= i < j < self.chain@.len() ==> self.chain@[i] != self.chain@[j]
    }

    /// The free list names distinct empty slots.
    spec fn free_ok(&self) -> bool {
        &&& forall|k: int|
            #![trigger self.free@[k]]
            0 <= k < self.free@.len() ==> {
                &&& self.free@[k] < self.nodes@.len()
                &&& self.nodes@[self.free@[k] as int] is None
            }
        &&& forall|k: int, l: int| 0 <= k < l < self.free@.len() ==> self.free@[k] != self.free@[l]
    }

    /// Well-formedness: `size` counts the cells reached from `root`, the chain
    /// ends at `leaf`, and the free list is sound.
    pub closed spec fn wf(&self) -> bool {
        &&& self.chain@.len() == self.size
        &&& self.links_ok()
        &&& self.free_ok()
        &&& self.root == if self.chain@.len() == 0 {
            None::<usize>
        } else {
            Some(self.chain@[0])
        }
        &&& self.leaf == if self.chain@.len() == 0 {
            None::<usize>
        } else {
            Some(self.chain@.last())
        }
    }

    /// The value of the public `size` field.
    pub closed spec fn count(&self) -> nat {
        self.size as nat
    }

    /// Creates a list holding `data` alone.
    pub fn new(data: T) -> (l: SinglyLinkedList<T>)
        ensures
            l.wf(),
            l@ == seq![data],
            l.count() == 1,
    {
        let ghost d = data;
        let ghost c = seq![0usize];
        let mut nodes: Vec<Option<Node<T>>> = Vec::new();
        nodes.push(Some(Node::new(data)));
        let l = SinglyLinkedList {
            nodes,
            free: Vec::new(),
            root: Some(0),
            leaf: Some(0),
            size: 1,
            chain: Ghost(c),
        };
        assert(l@ =~= seq![d]);
        l
    }

    /// Creates an empty list.
    pub fn new_empty() -> (l: SinglyLinkedList<T>)
        ensures
            l.wf(),
            l@ == Seq::<T>::empty(),
            l.count() == 0,
    {
        let l = SinglyLinkedList {
            nodes: Vec::new(),
            free: Vec::new(),
            root: None,
            leaf: None,
            size: 0,
            chain: Ghost(Seq::empty()),
        };
        assert(l@ =~= Seq::<T>::empty());
        l
    }

    /// Appends `data` after the last element, through the `leaf` slot.
    pub fn push(&mut self, data: T)
        requires
            old(self).wf(),
            old(self)@.len() < u32::MAX,
        ensures
            final(self).wf(),
            final(self)@ == old(self)@.push(data),
            final(self).count() == final(self)@.len(),
    {
        let ghost d = data;
        let ghost c = self.chain@;
        match self.leaf {
            None => {
                let r = self.acquire(data, None);
                self.root = Some(r);
                self.leaf = Some(r);
                let ghost nc = seq![r];
                self.chain = Ghost(nc);
            },
            Some(last) => {
                let r = self.acquire(data, None);
                proof {
                    assert(c[c.len() - 1] == last);
                    assert(c.len() >= 1);
                    assert(forall|i: int| 0 <= i < c.len() ==> #[trigger] c[i] != r);
                }
                self.set_next(last, Some(r));
                self.leaf = Some(r);
                self.chain = Ghost(c.push(r));
                proof {
                    assert(forall|i: int| 0 <= i < c.len() - 1 ==> #[trigger] c[i] != last);
                }
            },
        }
        self.size = self.size + 1;
        assert(self@ =~= old(self)@.push(d));
    }

    /// Puts `data` in front of the first element.
    pub fn insert(&mut self, data: T)
        requires
            old(self).wf(),
            old(self)@.len() < u32::MAX,
        ensures
            final(self).wf(),
            final(self)@ == seq![data] + old(self)@,
            final(self).count() == final(self)@.len(),
    {
        let ghost d = data;
        let ghost c = self.chain@;
        let r = self.acquire(data, self.root);
        proof {
            assert(forall|i: int| 0 <= i < c.len() ==> #[trigger] c[i] != r);
        }
        self.root = Some(r);
        if self.leaf.is_none() {
            self.leaf = Some(r);
        }
        let ghost nc = seq![r] + c;
        self.chain = Ghost(nc);
        self.size = self.size + 1;
        proof {
            assert forall|i: int| 0 <= i < self.chain@.len() implies #[trigger] self.chain@[i] == if i == 0 { r } else { c[i - 1] } by {}
        }
        assert(self@ =~= seq![d] + old(self)@);
    }

    /// Empties a list of one element.
    fn remove_only(&mut self)
        requires
            old(self).wf(),
            old(self)@.len() == 1,
        ensures
            final(self).wf(),
            final(self)@ == Seq::<T>::empty(),
            final(self).count() == 0,
    {
        let r = self.root.unwrap();
        self.release(r);
        self.root = None;
        self.leaf = None;
        self.chain = Ghost(Seq::empty());
        self.size = 0;
        assert(self@ =~= Seq::<T>::empty());
    }

    /// Splices out the cell after the one at position `i` of the chain, which sits
    /// in slot `past`.
    fn unlink_after(&mut self, past: usize, Ghost(i): Ghost<int>)
        requires
            old(self).wf(),
            0 <= i,
            i + 1 < old(self)@.len(),
            old(self).chain@[i] == past,
        ensures
            final(self).wf(),
            final(self)@ == old(self)@.remove(i + 1),
            final(self).count() == final(self)@.len(),
    {
        let ghost c = self.chain@;
        let victim = self.next_of(past).unwrap();
        let after = self.next_of(victim);
        self.set_next(past, after);
        if after.is_none() {
            self.leaf = Some(past);
        }
        self.release(victim);
        let ghost nc = c.remove(i + 1);
        self.chain = Ghost(nc);
        self.size = self.size - 1;
        proof {
            assert(c[i + 1] == victim);
            assert(forall|j: int| 0 <= j < c.len() && j != i ==> #[trigger] c[j] != past);
            assert(forall|j: int| 0 <= j < c.len() && j != i + 1 ==> #[trigger] c[j] != victim);
            assert forall|j: int| 0 <= j < nc.len() implies #[trigger] nc[j] == if j <= i {
                c[j]
            } else {
                c[j + 1]
            } by {}
            assert(self.chain@ == nc);
            assert forall|j: int|
                #![trigger nc[j]]
                0 <= j < nc.len() implies {
                    &&& nc[j] < self.nodes@.len()
                    &&& self.nodes@[nc[j] as int] is Some
                    &&& self.nodes@[nc[j] as int]->0.next == if j + 1 < nc.len() {
                        Some(nc[j + 1])
                    } else {
                        None::<usize>
                    }
                } by {
                if j < i {
                    assert(c[j] != past && c[j] != victim);
                } else if j == i {
                } else {
                    assert(c[j + 1] != past && c[j + 1] != victim);
                }
            }
            assert forall|a: int, b: int| 0 <= a < b < nc.len() implies nc[a] != nc[b] by {
                let a2 = if a <= i { a } else { a + 1 };
                let b2 = if b <= i { b } else { b + 1 };
                assert(nc[a] == c[a2] && nc[b] == c[b2]);
            }
        }
        assert(self@ =~= old(self)@.remove(i + 1));
    }

    /// Removes the last element; an empty list is left as it is. The cell before
    /// the last one is found by walking from the first.
    pub fn pop(&mut self)
        requires
            old(self).wf(),
        ensures
            final(self).wf(),
            final(self)@ == if old(self)@.len() == 0 {
                old(self)@
            } else {
                old(self)@.drop_last()
            },
            final(self).count() == final(self)@.len(),
    {
        if self.size == 0 {
            return;
        }
        if self.size == 1 {
            self.remove_only();
            assert(self@ =~= old(self)@.drop_last());
            return;
        }
        let ghost c = self.chain@;
        let mut current = self.root.unwrap();
        let mut after = self.next_of(current).unwrap();
        let ghost mut i: int = 0;
        while self.next_of(after).is_some()
            invariant
                self.wf(),
                *self == *old(self),
                self.chain@ == c,
                0 <= i,
                i + 1 < c.len(),
                current == c[i],
                after == c[i + 1],
            decreases c.len() - i,
        {
            current = after;
            after = self.next_of(after).unwrap();
            proof {
                i = i + 1;
            }
        }
        self.unlink_after(current, Ghost(i));
        assert(old(self)@.remove(c.len() - 1) =~= old(self)@.drop_last());
    }

    /// Removes the first element; an empty list is left as it is.
    pub fn remove_first(&mut self)
        requires
            old(self).wf(),
        ensures
            final(self).wf(),
            final(self)@ == if old(self)@.len() == 0 {
                old(self)@
            } else {
                old(self)@.drop_first()
            },
            final(self).count() == final(self)@.len(),
    {
        if self.size == 0 {
            return;
        }
        if self.size == 1 {
            self.remove_only();
            assert(self@ =~= old(self)@.drop_first());
            return;
        }
        let ghost c = self.chain@;
        let first = self.root.unwrap();
        let new_root = self.next_of(first);
        self.release(first);
        self.root = new_root;
        let ghost nc = c.drop_first();
        self.chain = Ghost(nc);
        self.size = self.size - 1;
        proof {
            assert(forall|j: int| 0 < j < c.len() ==> #[trigger] c[j] != first);
            assert forall|j: int|
                #![trigger nc[j]]
                0 <= j < nc.len() implies {
                    &&& nc[j] < self.nodes@.len()
                    &&& self.nodes@[nc[j] as int] is Some
                    &&& self.nodes@[nc[j] as int]->0.next == if j + 1 < nc.len() {
                        Some(nc[j + 1])
                    } else {
                        None::<usize>
                    }
                } by {
                assert(nc[j] == c[j + 1]);
            }
            assert forall|a: int, b: int| 0 <= a < b < nc.len() implies nc[a] != nc[b] by {
                assert(nc[a] == c[a + 1] && nc[b] == c[b + 1]);
            }
        }
        assert(self@ =~= old(self)@.drop_first());
    }

    /// Removes the element at position `index`; an index past the end leaves the
    /// list as it is.
    pub fn remove_at(&mut self, index: u32)
        requires
            old(self).wf(),
        ensures
            final(self).wf(),
            final(self)@ == if index < old(self)@.len() {
                old(self)@.remove(index as int)
            } else {
                old(self)@
            },
            final(self).count() == final(self)@.len(),
    {
        if index >= self.size {
            return;
        }
        if index == 0 {
            self.remove_first();
            assert(old(self)@.remove(0) =~= old(self)@.drop_first());
            return;
        }
        if index == self.size - 1 {
            self.pop();
            assert(old(self)@.remove(index as int) =~= old(self)@.drop_last());
            return;
        }
        let ghost c = self.chain@;
        let mut current = self.root.unwrap();
        let mut pos: u32 = 0;
        while pos + 1 < index
            invariant
                self.wf(),
                *self == *old(self),
                self.chain@ == c,
                pos < index < c.len(),
                current == c[pos as int],
            decreases index - pos,
        {
            current = self.next_of(current).unwrap();
            pos = pos + 1;
        }
        self.unlink_after(current, Ghost(pos as int));
    }

    /// The first element, or `None` for an empty list.
    pub fn get_first(&self) -> (r: Option<&T>)
        requires
            self.wf(),
        ensures
            r == if self@.len() == 0 {
                None
            } else {
                Some(&self@[0])
            },
    {
        match self.root {
            None => None,
            Some(k) => Some(self.data_at(k)),
        }
    }

    /// The last element, or `None` for an empty list.
    pub fn get_last(&self) -> (r: Option<&T>)
        requires
            self.wf(),
        ensures
            r == if self@.len() == 0 {
                None
            } else {
                Some(&self@.last())
            },
    {
        match self.leaf {
            None => None,
            Some(k) => Some(self.data_at(k)),
        }
    }

    /// The element at position `index`, or `None` when `index` is past the end.
    /// The last element is read through `leaf` without a walk.
    pub fn get(&self, index: u32) -> (r: Option<&T>)
        requires
            self.wf(),
        ensures
            r == if index < self@.len() {
                Some(&self@[index as int])
            } else {
                None
            },
    {
        if index >= self.size {
            None
        } else if index == self.size - 1 {
            self.get_last()
        } else if index == 0 {
            self.get_first()
        } else {
            let mut current = self.root.unwrap();
            let mut pos: u32 = 0;
            while pos < index
                invariant
                    self.wf(),
                    pos <= index < self.chain@.len(),
                    current == self.chain@[pos as int],
                decreases index - pos,
            {
                current = self.next_of(current).unwrap();
                pos = pos + 1;
            }
            Some(self.data_at(current))
        }
    }

    /// Puts a new cell in an empty slot, reusing a released one when there is one.
    fn acquire(&mut self, data: T, next: Option<usize>) -> (r: usize)
        requires
            old(self).free_ok(),
        ensures
            final(self).free_ok(),
            r < final(self).nodes@.len(),
            final(self).nodes@[r as int] == Some(Node { data, next }),
            old(self).nodes@.len() <= final(self).nodes@.len(),
            r < old(self).nodes@.len() ==> old(self).nodes@[r as int] is None,
            forall|k: int|
                0 <= k < old(self).nodes@.len() && k != r ==> final(self).nodes@[k]
                    == old(self).nodes@[k],
            final(self).chain == old(self).chain,
            final(self).root == old(self).root,
            final(self).leaf == old(self).leaf,
            final(self).size == old(self).size,
    {
        match self.free.pop() {
            Some(k) => {
                proof {
                    assert(old(self).free@[old(self).free@.len() - 1] == k);
                }
                self.nodes.set(k, Some(Node { data, next }));
                proof {
                    assert forall|m: int| 0 <= m < self.free@.len() implies self.free@[m]
                        != k by {
                        assert(self.free@[m] == old(self).free@[m]);
                    }
                    assert forall|m: int|
                        #![trigger self.free@[m]]
                        0 <= m < self.free@.len() implies self.nodes@[self.free@[m] as int] is None by {
                        assert(self.free@[m] == old(self).free@[m]);
                    }
                }
                k
            },
            None => {
                self.nodes.push(Some(Node { data, next }));
                self.nodes.len() - 1
            },
        }
    }

    /// Empties an occupied slot and puts it on the free list.
    fn release(&mut self, k: usize)
        requires
            old(self).free_ok(),
            k < old(self).nodes@.len(),
            old(self).nodes@[k as int] is Some,
        ensures
            final(self).free_ok(),
            final(self).nodes@ == old(self).nodes@.update(k as int, None),
            final(self).chain == old(self).chain,
            final(self).root == old(self).root,
            final(self).leaf == old(self).leaf,
            final(self).size == old(self).size,
    {
        let mut slot: Option<Node<T>> = None;
        self.nodes.set_and_swap(k, &mut slot);
        self.free.push(k);
        proof {
            assert forall|m: int| 0 <= m < old(self).free@.len() implies old(self).free@[m]
                != k by {
                assert(old(self).nodes@[old(self).free@[m] as int] is None);
            }
            assert forall|m: int|
                #![trigger self.free@[m]]
                0 <= m < self.free@.len() implies self.nodes@[self.free@[m] as int] is None by {
                if m < old(self).free@.len() {
                    assert(self.free@[m] == old(self).free@[m]);
                }
            }
        }
    }

    /// Points the cell in slot `k` to `next`.
    fn set_next(&mut self, k: usize, next: Option<usize>)
        requires
            k < old(self).nodes@.len(),
            old(self).nodes@[k as int] is Some,
        ensures
            final(self).nodes@ == old(self).nodes@.update(
                k as int,
                Some(Node { data: old(self).nodes@[k as int]->0.data, next }),
            ),
            final(self).free == old(self).free,
            final(self).chain == old(self).chain,
            final(self).root == old(self).root,
            final(self).leaf == old(self).leaf,
            final(self).size == old(self).size,
    {
        let mut slot: Option<Node<T>> = None;
        self.nodes.set_and_swap(k, &mut slot);
        let node = slot.unwrap();
        self.nodes.set(k, Some(Node { data: node.data, next }));
    }

    /// The slot after the cell in slot `k`.
    fn next_of(&self, k: usize) -> (r: Option<usize>)
        requires
            k < self.nodes@.len(),
            self.nodes@[k as int] is Some,
        ensures
            r == self.nodes@[k as int]->0.next,
    {
        self.nodes[k].as_ref().unwrap().next
    }

    /// The value of the cell in slot `k`.
    fn data_at(&self, k: usize) -> (r: &T)
        requires
            k < self.nodes@.len(),
            self.nodes@[k as int] is Some,
        ensures
            *r == self.nodes@[k as int]->0.data,
    {
        &self.nodes[k].as_ref().unwrap().data
    }
}

/// In every well-formed list, which every operation leaves behind, the public
/// `size` field equals the number of elements reached from the first cell.
pub proof fn lemma_size_counts_elements<T>(l: &SinglyLinkedList<T>)
    requires
        l.wf(),
    ensures
        l.count() == l@.len(),
{
}

/// `i` is the position of the first element of `s` that `T`'s equality finds
/// equal to `d`.
pub open spec fn is_first_equal<T: PartialEq>(s: Seq<T>, d: T, i: int) -> bool {
    &&& 0 <= i < s.len()
    &&& s[i].eq_spec(&d)
    &&& forall|j: int| 0 <= j < i ==> !(#[trigger] s[j].eq_spec(&d))
}

impl<T: PartialEq> SinglyLinkedList<T> {
    /// Removes the first element equal to `data`; the list is left as it is when
    /// no element is. Whatever `T`'s equality does, at most one element goes.
    pub fn remove_data(&mut self, data: T)
        requires
            old(self).wf(),
        ensures
            final(self).wf(),
            final(self).count() == final(self)@.len(),
            final(self)@ == old(self)@ || exists|i: int|
                0 <= i < old(self)@.len() && final(self)@ == old(self)@.remove(i),
            T::obeys_eq_spec() ==> forall|i: int|
                is_first_equal(old(self)@, data, i) ==> final(self)@ == old(self)@.remove(i),
            T::obeys_eq_spec() ==> (forall|i: int|
                0 <= i < old(self)@.len() ==> !(#[trigger] old(self)@[i].eq_spec(&data)))
                ==> final(self)@ == old(self)@,
    {
        if self.size == 0 {
            return;
        }
        let ghost c = self.chain@;
        let first = self.root.unwrap();
        if *self.data_at(first) == data {
            proof {
                assert(old(self)@[0] == self.nodes@[first as int]->0.data);
                if T::obeys_eq_spec() {
                    assert forall|i2: int| is_first_equal(old(self)@, data, i2) implies i2 == 0 by {
                        if i2 > 0 {
                            assert(!old(self)@[0].eq_spec(&data));
                        }
                    }
                }
            }
            self.remove_first();
            assert(old(self)@.remove(0) =~= old(self)@.drop_first());
            return;
        }
        let mut past = first;
        let mut current = self.next_of(first);
        let ghost mut i: int = 0;
        while current.is_some()
            invariant
                self.wf(),
                *self == *old(self),
                self.chain@ == c,
                0 <= i < c.len(),
                past == c[i],
                current == if i + 1 < c.len() {
                    Some(c[i + 1])
                } else {
                    None::<usize>
                },
                T::obeys_eq_spec() ==> forall|j: int|
                    0 <= j <= i ==> !(#[trigger] old(self)@[j].eq_spec(&data)),
            decreases c.len() - i,
        {
            let k = current.unwrap();
            if *self.data_at(k) == data {
                proof {
                    assert(old(self)@[i + 1] == self.nodes@[k as int]->0.data);
                    if T::obeys_eq_spec() {
                        assert forall|i2: int| is_first_equal(old(self)@, data, i2) implies i2 == i
                            + 1 by {
                            if i2 > i + 1 {
                                assert(!old(self)@[i + 1].eq_spec(&data));
                            }
                        }
                    }
                }
                self.unlink_after(past, Ghost(i));
                return;
            }
            past = k;
            current = self.next_of(k);
            proof {
                i = i + 1;
            }
        }
    }
}

impl<T> Node<T> {
    fn new(data: T) -> (n: Node<T>)
        ensures
            n == (Node { data, next: None }),
    {
        Node { data, next: None }
    }
}

} // verus!
