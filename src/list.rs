use vstd::prelude::*;

use crate::model::{
    back_popped, front_popped, joined, pushed_back, pushed_front, removed_at, rendered, text_of,
    text_of_ref, Contents,
};

verus! {

/// One storage cell of the list: a payload and the arena indices of its
/// neighbours.
pub struct Node {
    prev: Option<usize>,
    next: Option<usize>,
    data: String,
}

impl Node {
    /// A detached node holding `data`, with no neighbours.
    pub fn new(data: String) -> (r: Node)
        ensures
            r.value() == data@,
            r.prev_link() is None,
            r.next_link() is None,
    {
        Node { prev: None, next: None, data }
    }

    /// The payload's characters.
    pub closed spec fn value(&self) -> Seq<char> {
        self.data@
    }

    /// The slot of the preceding node, if linked after one.
    pub closed spec fn prev_link(&self) -> Option<usize> {
        self.prev
    }

    /// The slot of the following node, if linked before one.
    pub closed spec fn next_link(&self) -> Option<usize> {
        self.next
    }

    /// Consumes the node and hands back its payload.
    pub fn into_inner(self) -> (r: String)
        ensures
            r@ == self.value(),
    {
        self.data
    }
}

/// A stable reference to a linked node: its arena slot and the generation
/// that slot had when the node was linked.
#[derive(Clone, Copy, Debug, PartialEq, Eq)]
pub struct Handle {
    index: usize,
    gen: u64,
}

/// A doubly-linked list of strings kept in an arena of slots.
///
/// Links are slot indices. A vacated slot goes on the free list and is reused
/// by the next insertion; its generation is bumped so that handles to the
/// node that left it stop matching. A slot whose generation cannot be bumped
/// any further is never reused.
pub struct List {
    slots: Vec<Option<Node>>,
    gens: Vec<u64>,
    free: Vec<usize>,
    head: Option<usize>,
    tail: Option<usize>,
    len: usize,
    /// The slots of the linked nodes, head first.
    order: Ghost<Seq<usize>>,
}

impl View for List {
    type V = Contents;

    closed spec fn view(&self) -> Contents {
        self.order@.map_values(|k: usize| self.slots@[k as int]->Some_0.data@)
    }
}

impl List {
    spec fn node(&self, k: usize) -> Node {
        self.slots@[k as int]->Some_0
    }

    /// The free list names vacant slots, each once.
    spec fn free_ok(&self) -> bool {
        &&& forall|f: int|
            0 <= f < self.free@.len() ==> #[trigger] self.free@[f] < self.slots@.len()
                && self.slots@[self.free@[f] as int] is None
        &&& forall|f: int, g: int|
            0 <= f < g < self.free@.len() ==> #[trigger] self.free@[f] != #[trigger] self.free@[g]
    }

    /// The linked nodes are exactly the occupied slots, each once, in `order`.
    spec fn occupancy_ok(&self) -> bool {
        let o = self.order@;
        &&& forall|i: int|
            0 <= i < o.len() ==> #[trigger] o[i] < self.slots@.len() && self.slots@[o[i] as int] is Some
        &&& forall|i: int, j: int| 0 <= i < j < o.len() ==> #[trigger] o[i] != #[trigger] o[j]
        &&& forall|k: int|
            0 <= k < self.slots@.len() && (#[trigger] self.slots@[k]) is Some ==> exists|i: int|
                0 <= i < o.len() && o[i] == k
    }

    /// Each linked node's links name its neighbours in `order`; head and tail
    /// name the ends.
    spec fn links_ok(&self) -> bool {
        let o = self.order@;
        let n = o.len();
        &&& self.head == if n == 0 { None::<usize> } else { Some(o[0]) }
        &&& self.tail == if n == 0 { None::<usize> } else { Some(o[n - 1]) }
        &&& forall|i: int|
            0 <= i < n ==> (#[trigger] self.node(o[i])).prev == if i == 0 {
                None::<usize>
            } else {
                Some(o[i - 1])
            }
        &&& forall|i: int|
            0 <= i < n ==> (#[trigger] self.node(o[i])).next == if i == n - 1 {
                None::<usize>
            } else {
                Some(o[i + 1])
            }
    }

    /// The list's invariant.
    pub closed spec fn wf(&self) -> bool {
        &&& self.len as int == self.order@.len()
        &&& self.gens@.len() == self.slots@.len()
        &&& self.occupancy_ok()
        &&& self.links_ok()
        &&& self.free_ok()
    }

    /// `h` names a node that is linked in this list.
    pub closed spec fn is_live(&self, h: Handle) -> bool {
        &&& h.index < self.slots@.len()
        &&& self.slots@[h.index as int] is Some
        &&& self.gens@[h.index as int] == h.gen
    }

    /// Where the node named by a live handle stands, counted from the head.
    pub closed spec fn position(&self, h: Handle) -> int {
        choose|i: int| 0 <= i < self.order@.len() && self.order@[i] == h.index
    }

    /// A live handle names the node at its position.
    proof fn lemma_live_position(&self, g: Handle)
        requires
            self.wf(),
            self.is_live(g),
        ensures
            0 <= self.position(g) < self.order@.len(),
            self.order@[self.position(g)] == g.index,
    {
        let j = g.index as int;
        assert(self.slots@[j] is Some);
        assert(exists|i: int| 0 <= i < self.order@.len() && self.order@[i] == j);
    }

    /// The position of a slot in `order` is the only one that holds it.
    proof fn lemma_position(&self, g: Handle, i: int)
        requires
            self.wf(),
            0 <= i < self.order@.len(),
            self.order@[i] == g.index,
        ensures
            self.position(g) == i,
    {
        let o = self.order@;
        let j = self.position(g);
        assert(0 <= j < o.len() && o[j] == g.index);
        if j < i {
            assert(o[j] != o[i]);
        } else if i < j {
            assert(o[i] != o[j]);
        }
    }

    /// An empty list.
    pub fn new() -> (r: List)
        ensures
            r.wf(),
            r@ == Seq::<Seq<char>>::empty(),
    {
        List {
            slots: Vec::new(),
            gens: Vec::new(),
            free: Vec::new(),
            head: None,
            tail: None,
            len: 0,
            order: Ghost(Seq::empty()),
        }
    }

    /// Number of linked nodes.
    pub fn len(&self) -> (r: usize)
        requires
            self.wf(),
        ensures
            r == self@.len(),
    {
        self.len
    }

    /// Whether no node is linked.
    pub fn is_empty(&self) -> (r: bool)
        requires
            self.wf(),
        ensures
            r == (self@.len() == 0),
    {
        self.len == 0
    }

    /// Puts `node` into a vacant slot, reusing a free one when there is one.
    fn occupy(&mut self, node: Node) -> (k: usize)
        requires
            old(self).wf(),
        ensures
            k < final(self).slots@.len(),
            k < old(self).slots@.len() ==> old(self).slots@[k as int] is None,
            final(self).slots@ == if k < old(self).slots@.len() {
                old(self).slots@.update(k as int, Some(node))
            } else {
                old(self).slots@.push(Some(node))
            },
            final(self).gens@.len() == final(self).slots@.len(),
            forall|j: int|
                0 <= j < old(self).gens@.len() ==> final(self).gens@[j] == old(self).gens@[j],
            final(self).free_ok(),
            final(self).head == old(self).head,
            final(self).tail == old(self).tail,
            final(self).len == old(self).len,
            final(self).order == old(self).order,
    {
        match self.free.pop() {
            Some(k) => {
                proof {
                    assert(old(self).free@[old(self).free@.len() - 1] == k);
                }
                self.slots[k] = Some(node);
                k
            },
            None => {
                let k = self.slots.len();
                self.slots.push(Some(node));
                self.gens.push(0);
                k
            },
        }
    }
    /// Rewrites the `prev` link of the node in slot `k`.
    fn set_prev(&mut self, k: usize, v: Option<usize>)
        requires
            k < old(self).slots@.len(),
            old(self).slots@[k as int] is Some,
        ensures
            final(self).slots@ == old(self).slots@.update(
                k as int,
                Some(Node { prev: v, ..old(self).node(k) }),
            ),
            final(self).gens == old(self).gens,
            final(self).free == old(self).free,
            final(self).head == old(self).head,
            final(self).tail == old(self).tail,
            final(self).len == old(self).len,
            final(self).order == old(self).order,
    {
        let mut n = self.slots[k].take().unwrap();
        n.prev = v;
        self.slots[k] = Some(n);
    }

    /// Rewrites the `next` link of the node in slot `k`.
    fn set_next(&mut self, k: usize, v: Option<usize>)
        requires
            k < old(self).slots@.len(),
            old(self).slots@[k as int] is Some,
        ensures
            final(self).slots@ == old(self).slots@.update(
                k as int,
                Some(Node { next: v, ..old(self).node(k) }),
            ),
            final(self).gens == old(self).gens,
            final(self).free == old(self).free,
            final(self).head == old(self).head,
            final(self).tail == old(self).tail,
            final(self).len == old(self).len,
            final(self).order == old(self).order,
    {
        let mut n = self.slots[k].take().unwrap();
        n.next = v;
        self.slots[k] = Some(n);
    }

    /// Links `node` in front of the current head.
    fn prepend(&mut self, node: Node) -> (h: Handle)
        requires
            old(self).wf(),
            old(self)@.len() < usize::MAX,
        ensures
            final(self).wf(),
            final(self)@ == pushed_front(old(self)@, node.value()),
            final(self).order@ == seq![h.index] + old(self).order@,
            final(self).head == Some(h.index),
            old(self).order@.len() > 0 ==> final(self).tail == old(self).tail,
            final(self).is_live(h),
            final(self).position(h) == 0,
            forall|g: Handle|
                old(self).is_live(g) ==> #[trigger] final(self).is_live(g)
                    && final(self).position(g) == old(self).position(g) + 1,
            forall|g: Handle| #[trigger] final(self).is_live(g) ==> old(self).is_live(g) || g == h,
    {
        let mut node = node;
        node.prev = None;
        node.next = self.head;
        let ghost o = self.order@;
        let ghost s0 = self.slots@;
        let k = self.occupy(node);
        proof {
            assert forall|i: int| 0 <= i < o.len() implies o[i] != k by {}
        }
        let ghost s1 = self.slots@;
        match self.head {
            None => {
                self.tail = Some(k);
            },
            Some(h0) => {
                self.set_prev(h0, Some(k));
            },
        }
        self.head = Some(k);
        self.len = self.len + 1;
        self.order = Ghost(seq![k] + o);
        let ghost o2 = self.order@;
        proof {
            assert(o2[0] == k);
            assert forall|i: int| 1 <= i < o2.len() implies o2[i] == o[i - 1] by {}
            assert(self@ =~= pushed_front(old(self)@, node.value()));
            assert forall|f: int| 0 <= f < self.free@.len() implies #[trigger] self.free@[f]
                < self.slots@.len() && self.slots@[self.free@[f] as int] is None by {
                assert(s1[self.free@[f] as int] is None);
            }
            assert forall|i: int| 0 <= i < o2.len() implies (#[trigger] self.node(o2[i])).prev
                == if i == 0 { None::<usize> } else { Some(o2[i - 1]) } && self.node(o2[i]).next
                == if i == o2.len() - 1 { None::<usize> } else { Some(o2[i + 1]) } by {
                if i > 0 {
                    assert(o2[i] == o[i - 1]);
                    assert(old(self).node(o[i - 1]).prev == if i - 1 == 0 { None::<usize> } else { Some(o[i - 2]) });
                    assert(old(self).node(o[i - 1]).next == if i - 1 == o.len() - 1 { None::<usize> } else { Some(o[i]) });
                    if i > 1 {
                        assert(o[i - 1] != o[0]);
                    }
                }
            }
            assert(self.links_ok());
            assert forall|j: int|
                0 <= j < self.slots@.len() && (#[trigger] self.slots@[j]) is Some implies exists|i: int|
                0 <= i < o2.len() && o2[i] == j by {
                if j == k {
                    assert(o2[0] == j);
                } else {
                    assert(s0[j] is Some);
                    let i = choose|i: int| 0 <= i < o.len() && o[i] == j;
                    assert(o2[i + 1] == j);
                }
            }
            assert forall|i: int, j: int| 0 <= i < j < o2.len() implies #[trigger] o2[i] != #[trigger] o2[j] by {
                if i > 0 {
                    assert(o2[i] == o[i - 1]);
                }
                assert(o2[j] == o[j - 1]);
            }
            assert(self.occupancy_ok());
        }
        proof {
            assert(o2[0] == k);
            self.lemma_position(Handle { index: k, gen: self.gens@[k as int] }, 0);
            assert forall|g: Handle| old(self).is_live(g) implies #[trigger] self.is_live(g)
                && self.position(g) == old(self).position(g) + 1 by {
                old(self).lemma_live_position(g);
                self.lemma_position(g, old(self).position(g) + 1);
            }
        }
        Handle { index: k, gen: self.gens[k] }
    }

    /// Links `node` after the current tail.
    fn append(&mut self, node: Node) -> (h: Handle)
        requires
            old(self).wf(),
            old(self)@.len() < usize::MAX,
        ensures
            final(self).wf(),
            final(self)@ == pushed_back(old(self)@, node.value()),
            final(self).order@ == old(self).order@.push(h.index),
            final(self).tail == Some(h.index),
            old(self).order@.len() > 0 ==> final(self).head == old(self).head,
            final(self).is_live(h),
            final(self).position(h) == old(self)@.len(),
            forall|g: Handle|
                old(self).is_live(g) ==> #[trigger] final(self).is_live(g)
                    && final(self).position(g) == old(self).position(g),
            forall|g: Handle| #[trigger] final(self).is_live(g) ==> old(self).is_live(g) || g == h,
    {
        let mut node = node;
        node.prev = self.tail;
        node.next = None;
        let ghost o = self.order@;
        let ghost s0 = self.slots@;
        let k = self.occupy(node);
        proof {
            assert forall|i: int| 0 <= i < o.len() implies o[i] != k by {}
        }
        let ghost s1 = self.slots@;
        match self.tail {
            None => {
                self.head = Some(k);
            },
            Some(t0) => {
                self.set_next(t0, Some(k));
            },
        }
        self.tail = Some(k);
        self.len = self.len + 1;
        self.order = Ghost(o.push(k));
        let ghost o2 = self.order@;
        proof {
            assert(o2[o.len() as int] == k);
            assert forall|i: int| 0 <= i < o.len() implies o2[i] == o[i] by {}
            assert(self@ =~= pushed_back(old(self)@, node.value()));
            assert forall|f: int| 0 <= f < self.free@.len() implies #[trigger] self.free@[f]
                < self.slots@.len() && self.slots@[self.free@[f] as int] is None by {
                assert(s1[self.free@[f] as int] is None);
            }
            let n = o.len() as int;
            assert forall|i: int| 0 <= i < o2.len() implies (#[trigger] self.node(o2[i])).prev
                == if i == 0 { None::<usize> } else { Some(o2[i - 1]) } && self.node(o2[i]).next
                == if i == o2.len() - 1 { None::<usize> } else { Some(o2[i + 1]) } by {
                if i < n {
                    assert(o2[i] == o[i]);
                    assert(old(self).node(o[i]).prev == if i == 0 { None::<usize> } else { Some(o[i - 1]) });
                    assert(old(self).node(o[i]).next == if i == n - 1 { None::<usize> } else { Some(o[i + 1]) });
                    if i < n - 1 {
                        assert(o[i] != o[n - 1]);
                    }
                }
            }
            assert(self.links_ok());
            assert forall|j: int|
                0 <= j < self.slots@.len() && (#[trigger] self.slots@[j]) is Some implies exists|i: int|
                0 <= i < o2.len() && o2[i] == j by {
                if j == k {
                    assert(o2[n] == j);
                } else {
                    assert(s0[j] is Some);
                    let i = choose|i: int| 0 <= i < o.len() && o[i] == j;
                    assert(o2[i] == j);
                }
            }
            assert forall|i: int, j: int| 0 <= i < j < o2.len() implies #[trigger] o2[i] != #[trigger] o2[j] by {
                assert(o2[i] == o[i]);
                if j < n {
                    assert(o2[j] == o[j]);
                }
            }
            assert(self.occupancy_ok());
        }
        proof {
            assert(o2[o.len() as int] == k);
            self.lemma_position(Handle { index: k, gen: self.gens@[k as int] }, o.len() as int);
            assert forall|g: Handle| old(self).is_live(g) implies #[trigger] self.is_live(g)
                && self.position(g) == old(self).position(g) by {
                old(self).lemma_live_position(g);
                self.lemma_position(g, old(self).position(g));
            }
        }
        Handle { index: k, gen: self.gens[k] }
    }

    /// Links `data` as the new first element and returns a handle to it.
    pub fn push_front(&mut self, data: String) -> (h: Handle)
        requires
            old(self).wf(),
            old(self)@.len() < usize::MAX,
        ensures
            final(self).wf(),
            final(self)@ == pushed_front(old(self)@, data@),
            final(self).is_live(h),
            final(self).position(h) == 0,
            forall|g: Handle|
                old(self).is_live(g) ==> #[trigger] final(self).is_live(g)
                    && final(self).position(g) == old(self).position(g) + 1,
            forall|g: Handle| #[trigger] final(self).is_live(g) ==> old(self).is_live(g) || g == h,
    {
        self.prepend(Node::new(data))
    }

    /// Links `data` as the new last element and returns a handle to it.
    pub fn push_back(&mut self, data: String) -> (h: Handle)
        requires
            old(self).wf(),
            old(self)@.len() < usize::MAX,
        ensures
            final(self).wf(),
            final(self)@ == pushed_back(old(self)@, data@),
            final(self).is_live(h),
            final(self).position(h) == old(self)@.len(),
            forall|g: Handle|
                old(self).is_live(g) ==> #[trigger] final(self).is_live(g)
                    && final(self).position(g) == old(self).position(g),
            forall|g: Handle| #[trigger] final(self).is_live(g) ==> old(self).is_live(g) || g == h,
    {
        self.append(Node::new(data))
    }
    /// Unlinks the node in slot `k`, which stands at position `p`, frees its
    /// slot and returns its payload.
    #[verifier::rlimit(60)]
    #[verifier::spinoff_prover]
    fn unlink(&mut self, k: usize, Ghost(p): Ghost<int>) -> (r: String)
        requires
            old(self).wf(),
            0 <= p < old(self).order@.len(),
            old(self).order@[p] == k,
        ensures
            final(self).wf(),
            r@ == old(self)@[p],
            final(self)@ == removed_at(old(self)@, p),
            final(self).slots@[k as int] is None,
            final(self).order@ == old(self).order@.remove(p),
            forall|g: Handle|
                old(self).is_live(g) && g.index != k ==> #[trigger] final(self).is_live(g)
                    && final(self).position(g) == if old(self).position(g) < p {
                        old(self).position(g)
                    } else {
                        old(self).position(g) - 1
                    },
            forall|g: Handle| #[trigger] final(self).is_live(g) ==> old(self).is_live(g),
    {
        let ghost o = self.order@;
        let ghost n = o.len() as int;
        let ghost s0 = self.slots@;
        proof {
            assert(old(self).node(o[p]).prev == if p == 0 { None::<usize> } else { Some(o[p - 1]) });
            assert(old(self).node(o[p]).next == if p == n - 1 { None::<usize> } else { Some(o[p + 1]) });
        }
        let node = self.slots[k].take().unwrap();
        match node.prev {
            Some(pi) => {
                proof {
                    assert(o[p - 1] != o[p]);
                }
                self.set_next(pi, node.next);
            },
            None => {
                self.head = node.next;
            },
        }
        let ghost s1 = self.slots@;
        match node.next {
            Some(ni) => {
                proof {
                    assert(o[p + 1] != o[p]);
                    if p > 0 {
                        assert(o[p + 1] != o[p - 1]);
                    }
                }
                self.set_prev(ni, node.prev);
            },
            None => {
                self.tail = node.prev;
            },
        }
        self.len = self.len - 1;
        let g = self.gens[k];
        if g < u64::MAX {
            self.gens.set(k, g + 1);
            self.free.push(k);
        }
        self.order = Ghost(o.remove(p));
        let ghost o2 = self.order@;
        let ghost s2 = self.slots@;
        proof {
            assert forall|i: int| 0 <= i < o2.len() implies o2[i] == if i < p { o[i] } else { o[i + 1] } by {}
            assert forall|i: int| 0 <= i < o2.len() implies (#[trigger] self.node(o2[i])).data == old(self).node(o2[i]).data by {
                if i < p {
                    assert(o[i] != o[p]);
                } else {
                    assert(o[i + 1] != o[p]);
                }
            }
            assert(self@ =~= removed_at(old(self)@, p));
            assert forall|f: int| 0 <= f < self.free@.len() implies #[trigger] self.free@[f]
                < self.slots@.len() && self.slots@[self.free@[f] as int] is None by {
                if f < old(self).free@.len() {
                    let j = self.free@[f];
                    assert(s0[j as int] is None);
                    if p > 0 {
                        assert(s0[o[p - 1] as int] is Some);
                    }
                    if p < n - 1 {
                        assert(s0[o[p + 1] as int] is Some);
                    }
                }
            }
            assert forall|f: int, h: int| 0 <= f < h < self.free@.len() implies #[trigger] self.free@[f]
                != #[trigger] self.free@[h] by {
                if h == old(self).free@.len() {
                    assert(s0[self.free@[f] as int] is None);
                }
            }
            assert(self.free_ok());
            assert forall|i: int| 0 <= i < o2.len() implies (#[trigger] self.node(o2[i])).prev
                == if i == 0 { None::<usize> } else { Some(o2[i - 1]) } && self.node(o2[i]).next
                == if i == o2.len() - 1 { None::<usize> } else { Some(o2[i + 1]) } by {
                if i < p {
                    assert(old(self).node(o[i]).prev == if i == 0 { None::<usize> } else { Some(o[i - 1]) });
                    assert(old(self).node(o[i]).next == if i == n - 1 { None::<usize> } else { Some(o[i + 1]) });
                    assert(o[i] != o[p]);
                    if i < p - 1 {
                        assert(o[i] != o[p - 1]);
                    }
                    if p < n - 1 {
                        assert(o[i] != o[p + 1]);
                    }
                } else {
                    assert(old(self).node(o[i + 1]).prev == if i + 1 == 0 { None::<usize> } else { Some(o[i]) });
                    assert(old(self).node(o[i + 1]).next == if i + 1 == n - 1 { None::<usize> } else { Some(o[i + 2]) });
                    assert(o[i + 1] != o[p]);
                    if p > 0 {
                        assert(o[i + 1] != o[p - 1]);
                    }
                    if i > p {
                        assert(o[i + 1] != o[p + 1]);
                    }
                }
            }
            assert(self.links_ok());
            assert forall|i: int| 0 <= i < o2.len() implies #[trigger] o2[i] < self.slots@.len()
                && self.slots@[o2[i] as int] is Some by {
                if i < p {
                    assert(o[i] != o[p]);
                } else {
                    assert(o[i + 1] != o[p]);
                }
            }
            assert forall|j: int|
                0 <= j < self.slots@.len() && (#[trigger] self.slots@[j]) is Some implies exists|i: int|
                0 <= i < o2.len() && o2[i] == j by {
                assert(s0[j] is Some);
                let i = choose|i: int| 0 <= i < o.len() && o[i] == j;
                if i < p {
                    assert(o2[i] == j);
                } else {
                    assert(o2[i - 1] == j);
                }
            }
            assert forall|i: int, j: int| 0 <= i < j < o2.len() implies #[trigger] o2[i] != #[trigger] o2[j] by {
                if i < p {
                    assert(o2[i] == o[i]);
                } else {
                    assert(o2[i] == o[i + 1]);
                }
                if j < p {
                    assert(o2[j] == o[j]);
                } else {
                    assert(o2[j] == o[j + 1]);
                }
            }
            assert(self.occupancy_ok());
            assert forall|g: Handle| old(self).is_live(g) && g.index != k implies #[trigger] self.is_live(g)
                && self.position(g) == if old(self).position(g) < p {
                    old(self).position(g)
                } else {
                    old(self).position(g) - 1
                } by {
                old(self).lemma_live_position(g);
                let q = old(self).position(g);
                if q < p {
                    self.lemma_position(g, q);
                } else {
                    assert(q != p);
                    self.lemma_position(g, q - 1);
                }
            }
        }
        node.into_inner()
    }
    /// Unlinks the node that `h` names and returns its payload; `None`, with
    /// the list unchanged, when `h` names no node linked here.
    pub fn remove(&mut self, h: Handle) -> (r: Option<String>)
        requires
            old(self).wf(),
        ensures
            final(self).wf(),
            old(self).is_live(h) ==> 0 <= old(self).position(h) < old(self)@.len()
                && text_of(r) == Some(old(self)@[old(self).position(h)])
                && final(self)@ == removed_at(old(self)@, old(self).position(h))
                && !final(self).is_live(h),
            !old(self).is_live(h) ==> r is None && final(self)@ == old(self)@,
            forall|g: Handle|
                old(self).is_live(g) && g != h ==> #[trigger] final(self).is_live(g)
                    && (old(self).is_live(h) ==> final(self).position(g) == if old(self).position(g)
                        < old(self).position(h) {
                        old(self).position(g)
                    } else {
                        old(self).position(g) - 1
                    })
                    && (!old(self).is_live(h) ==> final(self).position(g) == old(self).position(g)),
            forall|g: Handle| #[trigger] final(self).is_live(g) ==> old(self).is_live(g),
    {
        if h.index < self.slots.len() && self.slots[h.index].is_some() && self.gens[h.index]
            == h.gen {
            let ghost p = self.position(h);
            proof {
                let j = h.index as int;
                assert(self.slots@[j] is Some);
                assert(exists|i: int| 0 <= i < self.order@.len() && self.order@[i] == j);
            }
            let r = self.unlink(h.index, Ghost(p));
            proof {
                assert forall|g: Handle| old(self).is_live(g) && g != h implies g.index != h.index by {
                }
            }
            Some(r)
        } else {
            None
        }
    }

    /// Unlinks the first node and returns its payload; `None` on an empty list.
    pub fn pop_front(&mut self) -> (r: Option<String>)
        requires
            old(self).wf(),
        ensures
            final(self).wf(),
            (text_of(r), final(self)@) == front_popped(old(self)@),
            forall|g: Handle|
                old(self).is_live(g) && old(self).position(g) != 0 ==> #[trigger] final(self).is_live(g)
                    && final(self).position(g) == old(self).position(g) - 1,
            forall|g: Handle| #[trigger] final(self).is_live(g) ==> old(self).is_live(g),
    {
        match self.head {
            None => None,
            Some(k) => {
                let v = self.unlink(k, Ghost(0));
                proof {
                    assert(removed_at(old(self)@, 0) =~= old(self)@.drop_first());
                    assert forall|g: Handle|
                        old(self).is_live(g) && old(self).position(g) != 0 implies g.index != k by {
                        old(self).lemma_live_position(g);
                        assert(old(self).order@[old(self).position(g)] != old(self).order@[0]);
                    }
                    assert forall|g: Handle|
                        old(self).is_live(g) && old(self).position(g) != 0 implies #[trigger] self.is_live(g)
                        && self.position(g) == old(self).position(g) - 1 by {
                        old(self).lemma_live_position(g);
                    }
                }
                Some(v)
            },
        }
    }

    /// Unlinks the last node and returns its payload; `None` on an empty list.
    pub fn pop_back(&mut self) -> (r: Option<String>)
        requires
            old(self).wf(),
        ensures
            final(self).wf(),
            (text_of(r), final(self)@) == back_popped(old(self)@),
            forall|g: Handle|
                old(self).is_live(g) && old(self).position(g) != old(self)@.len() - 1
                    ==> #[trigger] final(self).is_live(g)
                    && final(self).position(g) == old(self).position(g),
            forall|g: Handle| #[trigger] final(self).is_live(g) ==> old(self).is_live(g),
    {
        match self.tail {
            None => None,
            Some(k) => {
                let ghost last = self.order@.len() - 1;
                let v = self.unlink(k, Ghost(last));
                proof {
                    assert(removed_at(old(self)@, last) =~= old(self)@.drop_last());
                    assert forall|g: Handle|
                        old(self).is_live(g) && old(self).position(g) != old(self)@.len() - 1
                        implies g.index != k by {
                        old(self).lemma_live_position(g);
                        assert(old(self).order@[old(self).position(g)] != old(self).order@[last]);
                    }
                    assert forall|g: Handle|
                        old(self).is_live(g) && old(self).position(g) != old(self)@.len() - 1
                        implies #[trigger] self.is_live(g) && self.position(g) == old(self).position(g) by {
                        old(self).lemma_live_position(g);
                    }
                }
                Some(v)
            },
        }
    }

    /// Whether some node holds exactly `data`, scanning from the head.
    pub fn contain(&self, data: &str) -> (r: bool)
        requires
            self.wf(),
        ensures
            r == self@.contains(data@),
    {
        let target = data.to_owned();
        let ghost o = self.order@;
        let ghost n = o.len() as int;
        let mut cur = self.head;
        let ghost mut i: int = 0;
        loop
            invariant
                self.wf(),
                o == self.order@,
                n == o.len(),
                target@ == data@,
                0 <= i <= n,
                cur == if i < n { Some(o[i]) } else { None::<usize> },
                forall|j: int| 0 <= j < i ==> self@[j] != data@,
            decreases n - i,
        {
            match cur {
                None => {
                    return false;
                },
                Some(k) => {
                    proof {
                        assert(self.node(o[i]).next == if i == n - 1 { None::<usize> } else { Some(o[i + 1]) });
                    }
                    match &self.slots[k] {
                        Some(node) => {
                            if node.data == target {
                                proof {
                                    assert(self@[i] == data@);
                                }
                                return true;
                            }
                            cur = node.next;
                        },
                        None => {
                            return false;
                        },
                    }
                    proof {
                        i = i + 1;
                    }
                },
            }
        }
    }
    /// The payloads from head to tail, as `[a, b, c]`.
    pub fn print_all(&self) -> (r: String)
        requires
            self.wf(),
        ensures
            r@ == rendered(self@),
    {
        let ghost o = self.order@;
        let ghost n = o.len() as int;
        let ghost s = self@;
        let mut out = String::from_str("[");
        let mut cur = self.head;
        let mut i: usize = 0;
        proof {
            reveal_strlit("[");
            assert(s.take(0) =~= Seq::<Seq<char>>::empty());
        }
        while i < self.len
            invariant
                self.wf(),
                o == self.order@,
                s == self@,
                n == o.len(),
                n == self.len,
                0 <= i <= n,
                cur == if i < n { Some(o[i as int]) } else { None::<usize> },
                out@ == seq!['['] + joined(s.take(i as int)),
            decreases n - i,
        {
            proof {
                assert(self.node(o[i as int]).next == if i == n - 1 { None::<usize> } else { Some(o[i + 1]) });
            }
            let k = cur.unwrap();
            match &self.slots[k] {
                Some(node) => {
                    if i > 0 {
                        out.append(", ");
                    }
                    out.append(node.data.as_str());
                    cur = node.next;
                },
                None => {},
            }
            proof {
                reveal_strlit(", ");
                let t = s.take(i + 1);
                assert(t.drop_last() =~= s.take(i as int));
                assert(t.last() == s[i as int]);
                if i == 0 {
                    assert(joined(s.take(0)) =~= Seq::<char>::empty());
                    assert(joined(t) == t[0]);
                }
            }
            i = i + 1;
        }
        out.append("]");
        proof {
            reveal_strlit("]");
            assert(s.take(n) =~= s);
        }
        out
    }

    /// The payloads from tail to head, as `[c, b, a]`.
    pub fn rev_print_all(&self) -> (r: String)
        requires
            self.wf(),
        ensures
            r@ == rendered(self@.reverse()),
    {
        let ghost o = self.order@;
        let ghost n = o.len() as int;
        let ghost s = self@.reverse();
        let mut out = String::from_str("[");
        let mut cur = self.tail;
        let mut i: usize = 0;
        proof {
            reveal_strlit("[");
            assert(s.take(0) =~= Seq::<Seq<char>>::empty());
        }
        while i < self.len
            invariant
                self.wf(),
                o == self.order@,
                s == self@.reverse(),
                n == o.len(),
                n == self.len,
                0 <= i <= n,
                cur == if i < n { Some(o[n - 1 - i]) } else { None::<usize> },
                out@ == seq!['['] + joined(s.take(i as int)),
            decreases n - i,
        {
            proof {
                let m = n - 1 - i;
                assert(self.node(o[m]).prev == if m == 0 { None::<usize> } else { Some(o[m - 1]) });
            }
            let k = cur.unwrap();
            match &self.slots[k] {
                Some(node) => {
                    if i > 0 {
                        out.append(", ");
                    }
                    out.append(node.data.as_str());
                    cur = node.prev;
                },
                None => {},
            }
            proof {
                reveal_strlit(", ");
                let t = s.take(i + 1);
                assert(t.drop_last() =~= s.take(i as int));
                assert(t.last() == s[i as int]);
                assert(s[i as int] == self@[n - 1 - i]);
                if i == 0 {
                    assert(joined(s.take(0)) =~= Seq::<char>::empty());
                    assert(joined(t) == t[0]);
                }
            }
            i = i + 1;
        }
        out.append("]");
        proof {
            reveal_strlit("]");
            assert(s.take(n) =~= s);
        }
        out
    }
    /// A cursor over the payloads, head to tail; `next_back` walks from the
    /// tail.
    pub fn iter(&self) -> (r: Iter<'_>)
        requires
            self.wf(),
        ensures
            r.wf(),
            r.remaining() == self@,
    {
        let it = Iter {
            list: self,
            head: self.head,
            tail: self.tail,
            len: self.len,
            lo: Ghost(0),
            hi: Ghost(self.order@.len() as int),
        };
        proof {
            assert(it.remaining() =~= self@);
        }
        it
    }

    /// A cursor over the payloads, tail to head.
    pub fn iter_reverse(&self) -> (r: RevIter<'_>)
        requires
            self.wf(),
        ensures
            r.wf(),
            r.remaining() == self@.reverse(),
    {
        RevIter { inner: self.iter() }
    }
}

/// A borrowing cursor over a range of a list's nodes. It follows the links as
/// it goes and copies nothing.
pub struct Iter<'a> {
    list: &'a List,
    head: Option<usize>,
    tail: Option<usize>,
    len: usize,
    /// The range of positions not yet handed out.
    lo: Ghost<int>,
    hi: Ghost<int>,
}

impl<'a> Iter<'a> {
    /// The cursor's ends name the first and last nodes of its range.
    pub closed spec fn wf(&self) -> bool {
        let o = self.list.order@;
        let lo = self.lo@;
        let hi = self.hi@;
        &&& self.list.wf()
        &&& 0 <= lo <= hi <= o.len()
        &&& self.len as int == hi - lo
        &&& lo < hi ==> self.head == Some(o[lo]) && self.tail == Some(o[hi - 1])
    }

    /// The payloads still to come, front first.
    pub closed spec fn remaining(&self) -> Contents {
        self.list@.subrange(self.lo@, self.hi@)
    }

    /// The payload at the front of the range, which then shrinks by one.
    pub fn next(&mut self) -> (r: Option<&'a String>)
        requires
            old(self).wf(),
        ensures
            final(self).wf(),
            (text_of_ref(r), final(self).remaining()) == front_popped(old(self).remaining()),
    {
        if self.len == 0 {
            proof {
                assert(self.remaining() =~= Seq::<Seq<char>>::empty());
            }
            None
        } else {
            let list: &'a List = self.list;
            let k = self.head.unwrap();
            let ghost o = list.order@;
            let ghost lo = self.lo@;
            proof {
                assert(list.node(o[lo]).next == if lo == o.len() - 1 { None::<usize> } else { Some(o[lo + 1]) });
            }
            match &list.slots[k] {
                Some(node) => {
                    self.head = node.next;
                    self.len = self.len - 1;
                    self.lo = Ghost(lo + 1);
                    proof {
                        assert(self.remaining() =~= old(self).remaining().drop_first());
                    }
                    Some(&node.data)
                },
                None => None,
            }
        }
    }

    /// The payload at the back of the range, which then shrinks by one.
    pub fn next_back(&mut self) -> (r: Option<&'a String>)
        requires
            old(self).wf(),
        ensures
            final(self).wf(),
            (text_of_ref(r), final(self).remaining()) == back_popped(old(self).remaining()),
    {
        if self.len == 0 {
            proof {
                assert(self.remaining() =~= Seq::<Seq<char>>::empty());
            }
            None
        } else {
            let list: &'a List = self.list;
            let k = self.tail.unwrap();
            let ghost o = list.order@;
            let ghost hi = self.hi@;
            proof {
                assert(list.node(o[hi - 1]).prev == if hi - 1 == 0 { None::<usize> } else { Some(o[hi - 2]) });
            }
            match &list.slots[k] {
                Some(node) => {
                    self.tail = node.prev;
                    self.len = self.len - 1;
                    self.hi = Ghost(hi - 1);
                    proof {
                        assert(self.remaining() =~= old(self).remaining().drop_last());
                    }
                    Some(&node.data)
                },
                None => None,
            }
        }
    }

    /// The exact number of payloads still to come, as a lower and upper bound.
    pub fn size_hint(&self) -> (r: (usize, Option<usize>))
        requires
            self.wf(),
        ensures
            r.0 == self.remaining().len(),
            r.1 == Some(r.0),
    {
        (self.len, Some(self.len))
    }

    /// The last payload still to come.
    pub fn last(self) -> (r: Option<&'a String>)
        requires
            self.wf(),
        ensures
            text_of_ref(r) == back_popped(self.remaining()).0,
    {
        let mut it = self;
        it.next_back()
    }
}

/// A borrowing cursor that walks a list from tail to head.
pub struct RevIter<'a> {
    inner: Iter<'a>,
}

impl<'a> RevIter<'a> {
    /// The underlying cursor is well formed.
    pub closed spec fn wf(&self) -> bool {
        self.inner.wf()
    }

    /// The payloads still to come, in the order they will come.
    pub closed spec fn remaining(&self) -> Contents {
        self.inner.remaining().reverse()
    }

    /// The next payload towards the head.
    pub fn next(&mut self) -> (r: Option<&'a String>)
        requires
            old(self).wf(),
        ensures
            final(self).wf(),
            (text_of_ref(r), final(self).remaining()) == front_popped(old(self).remaining()),
    {
        let r = self.inner.next_back();
        proof {
            let s = old(self).inner.remaining();
            if s.len() > 0 {
                assert(s.drop_last().reverse() =~= s.reverse().drop_first());
            }
        }
        r
    }
}

} // verus!
