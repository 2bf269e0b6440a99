//! The eviction-order collaborator: a doubly-ended list of elements kept in
//! recency order, reimplemented as an arena of slots addressed by stable
//! indices inside one growable owned array. Unlinking and moving to the back
//! rewire indices only, so a handle handed out by `push_back` stays valid
//! until its element leaves the list.

use vstd::prelude::*;

verus! {

/// The region of the segmented eviction order that an entry belongs to:
/// newly admitted entries sit in the window, entries that survived the
/// window without a hit sit in main-probation, and entries re-touched while
/// resident are protected.
#[derive(Clone, Copy, PartialEq, Eq, Structural, Debug)]
pub enum CacheRegion {
    Window,
    MainProbation,
    MainProtected,
}

/// A list of `T` in insertion/touch order. `nodes` is the arena: a slot is
/// `Some` while its element is linked. `order` holds the arena indices of the
/// linked slots, front (least recently touched) first.
pub struct LinkedList<T> {
    nodes: Vec<Option<T>>,
    order: Vec<usize>,
}

impl<T> View for LinkedList<T> {
    type V = Seq<T>;

    closed spec fn view(&self) -> Seq<T> {
        self.order@.map_values(|h: usize| self.nodes@[h as int]->0)
    }
}

impl<T> LinkedList<T> {
    /// Every linked slot is in bounds and occupied, and no slot is linked
    /// twice.
    pub closed spec fn wf(&self) -> bool {
        &&& forall|i: int|
            0 <= i < self.order@.len() ==> (#[trigger] self.order@[i] as int) < self.nodes@.len()
                && self.nodes@[self.order@[i] as int] is Some
        &&& self.order@.no_duplicates()
    }

    /// The handle is currently linked.
    pub closed spec fn has_handle(&self, h: usize) -> bool {
        self.order@.contains(h)
    }

    /// The position in the list of the element that the handle addresses.
    pub closed spec fn handle_pos(&self, h: usize) -> int {
        choose|i: int| 0 <= i < self.order@.len() && self.order@[i] == h
    }

    pub fn new() -> (l: Self)
        ensures
            l.wf(),
            l@ == Seq::<T>::empty(),
    {
        let l = LinkedList { nodes: Vec::new(), order: Vec::new() };
        proof {
            assert(l@ =~= Seq::<T>::empty());
        }
        l
    }

    pub fn len(&self) -> (n: usize)
        ensures
            n == self@.len(),
    {
        self.order.len()
    }

    pub fn is_empty(&self) -> (b: bool)
        ensures
            b == (self@.len() == 0),
    {
        self.order.len() == 0
    }

    pub fn front(&self) -> (r: Option<&T>)
        requires
            self.wf(),
        ensures
            self@.len() == 0 ==> r is None,
            self@.len() > 0 ==> (r matches Some(e) && *e == self@[0]),
    {
        if self.order.len() == 0 {
            None
        } else {
            let h = self.order[0];
            match &self.nodes[h] {
                Some(e) => Some(e),
                None => None,
            }
        }
    }

    pub fn pop_front(&mut self) -> (r: Option<T>)
        requires
            old(self).wf(),
        ensures
            final(self).wf(),
            old(self)@.len() == 0 ==> r is None && final(self)@ == old(self)@,
            old(self)@.len() > 0 ==> r == Some(old(self)@[0]) && final(self)@
                == old(self)@.drop_first(),
    {
        if self.order.len() == 0 {
            return None;
        }
        let ghost pre = *self;
        let h = self.order.remove(0);
        let slot = self.nodes[h].take();
        proof {
            assert(pre.order@[0] == h);
            assert forall|i: int| 0 <= i < self.order@.len() implies (#[trigger] self.order@[i] as int)
                < self.nodes@.len() && self.nodes@[self.order@[i] as int] is Some by {
                assert(self.order@[i] == pre.order@[i + 1]);
                assert(pre.order@[i + 1] != pre.order@[0]);
            }
            assert(self.order@.no_duplicates()) by {
                assert forall|i: int, j: int|
                    0 <= i < j < self.order@.len() implies self.order@[i] != self.order@[j] by {
                    assert(self.order@[i] == pre.order@[i + 1]);
                    assert(self.order@[j] == pre.order@[j + 1]);
                }
            }
            assert(self@ =~= pre@.drop_first()) by {
                assert forall|i: int| 0 <= i < self.order@.len() implies self@[i] == pre@[i + 1] by {
                    assert(self.order@[i] == pre.order@[i + 1]);
                    assert(pre.order@[i + 1] != pre.order@[0]);
                }
            }
        }
        slot
    }

    pub fn push_back(&mut self, elem: T) -> (h: usize)
        requires
            old(self).wf(),
        ensures
            final(self).wf(),
            final(self)@ == old(self)@.push(elem),
            final(self).has_handle(h),
            final(self).handle_pos(h) == old(self)@.len() as int,
            forall|g: usize| old(self).has_handle(g) ==> #[trigger] final(self).has_handle(g),
    {
        let ghost pre = *self;
        let h = self.nodes.len();
        self.nodes.push(Some(elem));
        self.order.push(h);
        proof {
            assert(!pre.order@.contains(h)) by {
                if pre.order@.contains(h) {
                    let i = choose|i: int| 0 <= i < pre.order@.len() && pre.order@[i] == h;
                    assert((pre.order@[i] as int) < pre.nodes@.len());
                }
            }
            assert forall|i: int| 0 <= i < self.order@.len() implies (#[trigger] self.order@[i] as int)
                < self.nodes@.len() && self.nodes@[self.order@[i] as int] is Some by {
                if i < pre.order@.len() {
                    assert(self.order@[i] == pre.order@[i]);
                } else {
                    assert(self.order@[i] == h);
                }
            }
            assert(self.order@.no_duplicates()) by {
                assert forall|i: int, j: int|
                    0 <= i < j < self.order@.len() implies self.order@[i] != self.order@[j] by {
                    if j < pre.order@.len() {
                    } else {
                        assert(self.order@[j] == h);
                        assert(pre.order@.contains(pre.order@[i]));
                    }
                }
            }
            assert(self@ =~= pre@.push(elem)) by {
                assert forall|i: int| 0 <= i < pre.order@.len() implies self@[i] == pre@[i] by {
                    assert(self.order@[i] == pre.order@[i]);
                }
                assert(self.order@[pre.order@.len() as int] == h);
                assert(self@[pre.order@.len() as int] == elem);
            }
            assert forall|g: usize| pre.order@.contains(g) implies self.order@.contains(g) by {
                let i = choose|i: int| 0 <= i < pre.order@.len() && pre.order@[i] == g;
                assert(self.order@[i] == g);
            }
            assert(self.order@[pre.order@.len() as int] == h);
            let p = self.handle_pos(h);
            assert(0 <= p < self.order@.len() && self.order@[p] == h);
            assert(p == pre.order@.len() as int) by {
                if p < pre.order@.len() {
                    assert(self.order@[p] == pre.order@[p]);
                    assert(pre.order@.contains(h));
                }
            }
        }
        h
    }

    pub fn push_front(&mut self, elem: T) -> (h: usize)
        requires
            old(self).wf(),
        ensures
            final(self).wf(),
            final(self)@ == seq![elem] + old(self)@,
            final(self).has_handle(h),
            final(self).handle_pos(h) == 0,
            forall|g: usize| old(self).has_handle(g) ==> #[trigger] final(self).has_handle(g),
    {
        let ghost pre = *self;
        let h = self.nodes.len();
        self.nodes.push(Some(elem));
        self.order.insert(0, h);
        proof {
            assert(!pre.order@.contains(h)) by {
                if pre.order@.contains(h) {
                    let i = choose|i: int| 0 <= i < pre.order@.len() && pre.order@[i] == h;
                    assert((pre.order@[i] as int) < pre.nodes@.len());
                }
            }
            assert(self.order@[0] == h);
            assert forall|i: int| 0 <= i < self.order@.len() implies (#[trigger] self.order@[i] as int)
                < self.nodes@.len() && self.nodes@[self.order@[i] as int] is Some by {
                if i > 0 {
                    assert(self.order@[i] == pre.order@[i - 1]);
                }
            }
            assert(self.order@.no_duplicates()) by {
                assert forall|i: int, j: int|
                    0 <= i < j < self.order@.len() implies self.order@[i] != self.order@[j] by {
                    if i == 0 {
                        assert(self.order@[j] == pre.order@[j - 1]);
                        assert(pre.order@.contains(pre.order@[j - 1]));
                    } else {
                        assert(self.order@[i] == pre.order@[i - 1]);
                        assert(self.order@[j] == pre.order@[j - 1]);
                    }
                }
            }
            assert(self@ =~= seq![elem] + pre@) by {
                assert(self@[0] == elem);
                assert forall|i: int| 1 <= i < self.order@.len() implies self@[i] == pre@[i - 1] by {
                    assert(self.order@[i] == pre.order@[i - 1]);
                }
            }
            assert forall|g: usize| pre.order@.contains(g) implies self.order@.contains(g) by {
                let i = choose|i: int| 0 <= i < pre.order@.len() && pre.order@[i] == g;
                assert(self.order@[i + 1] == g);
            }
            let p = self.handle_pos(h);
            assert(0 <= p < self.order@.len() && self.order@[p] == h);
            assert(p == 0) by {
                if p > 0 {
                    assert(self.order@[p] == pre.order@[p - 1]);
                    assert(pre.order@.contains(h));
                }
            }
        }
        h
    }

    pub fn pop_back(&mut self) -> (r: Option<T>)
        requires
            old(self).wf(),
        ensures
            final(self).wf(),
            old(self)@.len() == 0 ==> r is None && final(self)@ == old(self)@,
            old(self)@.len() > 0 ==> r == Some(old(self)@.last()) && final(self)@
                == old(self)@.drop_last(),
    {
        if self.order.len() == 0 {
            return None;
        }
        let ghost pre = *self;
        let h = match self.order.pop() {
            Some(h) => h,
            None => {
                return None;
            },
        };
        let slot = self.nodes[h].take();
        proof {
            let last = pre.order@.len() - 1;
            assert(pre.order@[last] == h);
            assert(self.order@ =~= pre.order@.drop_last());
            assert forall|i: int| 0 <= i < self.order@.len() implies (#[trigger] self.order@[i] as int)
                < self.nodes@.len() && self.nodes@[self.order@[i] as int] is Some by {
                assert(self.order@[i] == pre.order@[i]);
                assert(pre.order@[i] != pre.order@[last]);
            }
            assert(self@ =~= pre@.drop_last()) by {
                assert forall|i: int| 0 <= i < self.order@.len() implies self@[i] == pre@[i] by {
                    assert(self.order@[i] == pre.order@[i]);
                    assert(pre.order@[i] != pre.order@[last]);
                }
            }
        }
        slot
    }

    pub fn move_to_back(&mut self, node: Option<usize>)
        requires
            old(self).wf(),
            node matches Some(h) ==> old(self).has_handle(h),
        ensures
            final(self).wf(),
            node is None ==> final(self)@ == old(self)@,
            node matches Some(h) ==> {
                let p = old(self).handle_pos(h);
                final(self)@ == old(self)@.remove(p).push(old(self)@[p])
            },
    {
        let h = match node {
            None => {
                return ;
            },
            Some(h) => h,
        };
        let ghost pre = *self;
        let mut j: usize = 0;
        while j < self.order.len() && self.order[j] != h
            invariant
                *self == pre,
                pre.wf(),
                pre.order@.contains(h),
                0 <= j <= pre.order@.len(),
                forall|i: int| 0 <= i < j ==> pre.order@[i] != h,
            decreases pre.order@.len() - j,
        {
            j = j + 1;
        }
        proof {
            assert(j < pre.order@.len() && pre.order@[j as int] == h) by {
                if j == pre.order@.len() {
                    let w = choose|i: int| 0 <= i < pre.order@.len() && pre.order@[i] == h;
                    assert(pre.order@[w] == h);
                }
            }
            assert(pre.handle_pos(h) == j as int) by {
                let p = pre.handle_pos(h);
                assert(0 <= p < pre.order@.len() && pre.order@[p] == h);
            }
        }
        let hh = self.order.remove(j);
        self.order.push(hh);
        proof {
            let p = j as int;
            let mid = pre.order@.remove(p);
            assert(self.order@ == mid.push(h));
            assert forall|i: int| 0 <= i < self.order@.len() implies (#[trigger] self.order@[i] as int)
                < self.nodes@.len() && self.nodes@[self.order@[i] as int] is Some by {
                if i < mid.len() {
                    if i < p {
                        assert(self.order@[i] == pre.order@[i]);
                    } else {
                        assert(self.order@[i] == pre.order@[i + 1]);
                    }
                } else {
                    assert(self.order@[i] == pre.order@[p]);
                }
            }
            assert(self.order@.no_duplicates()) by {
                assert forall|a: int, b: int|
                    0 <= a < b < self.order@.len() implies self.order@[a] != self.order@[b] by {
                    let oa = if a < p { pre.order@[a] } else if a < mid.len() { pre.order@[a + 1] }
                        else { pre.order@[p] };
                    let ob = if b < p { pre.order@[b] } else if b < mid.len() { pre.order@[b + 1] }
                        else { pre.order@[p] };
                    assert(self.order@[a] == oa);
                    assert(self.order@[b] == ob);
                }
            }
            assert(self@ =~= pre@.remove(p).push(pre@[p])) by {
                assert forall|i: int| 0 <= i < mid.len() implies self@[i] == pre@.remove(p)[i] by {
                    if i < p {
                        assert(self.order@[i] == pre.order@[i]);
                    } else {
                        assert(self.order@[i] == pre.order@[i + 1]);
                    }
                }
                assert(self.order@[mid.len() as int] == pre.order@[p]);
                assert(self@[mid.len() as int] == pre@[p]);
            }
        }
    }
}

} // verus!
