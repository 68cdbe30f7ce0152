//! A model of the host document: the "document backend" capability.
//!
//! The backend owns every node the document has ever allocated. A handle is
//! an index into the backend's tables. Each allocated handle has a kind
//! (element, text, or comment), a diagnostic label (the element name, the
//! text payload, or the comment annotation), an optional parent, and an
//! ordered list of child handles. A handle with no parent is *detached*:
//! allocated, but not part of the live tree.

use vstd::prelude::*;

verus! {

/// The kind of a backend node.
#[derive(Clone, Copy, PartialEq, Eq, Structural, Debug)]
pub enum HandleKind {
    /// A named element node.
    Element,
    /// A text node.
    Text,
    /// A comment node, used for component boundary markers.
    Comment,
}

/// The host document: every allocated handle, with its kind, label,
/// parent, and ordered child list.
pub struct Backend {
    kinds: Vec<HandleKind>,
    labels: Vec<String>,
    parents: Vec<Option<usize>>,
    childlists: Vec<Vec<usize>>,
}

impl Backend {
    /// How many handles have ever been allocated.
    pub closed spec fn len(self) -> int {
        self.kinds@.len() as int
    }

    /// Whether `h` is an allocated handle.
    pub open spec fn valid(self, h: int) -> bool {
        0 <= h < self.len()
    }

    /// The kind of handle `h`.
    pub closed spec fn kind_of(self, h: int) -> HandleKind {
        self.kinds@[h]
    }

    /// The diagnostic label of handle `h`.
    pub closed spec fn label_of(self, h: int) -> Seq<char> {
        self.labels@[h]@
    }

    /// The parent of handle `h`, if `h` is attached.
    pub closed spec fn parent_of(self, h: int) -> Option<usize> {
        self.parents@[h]
    }

    /// The ordered child handles of handle `h`.
    pub closed spec fn children_of(self, h: int) -> Seq<usize> {
        self.childlists@[h]@
    }

    /// Whether `h` is allocated but not attached under any parent.
    pub open spec fn detached(self, h: int) -> bool {
        self.valid(h) && self.parent_of(h) is None
    }

    /// The four tables cover the same handles.
    pub closed spec fn tables_agree(self) -> bool {
        &&& self.labels@.len() as int == self.len()
        &&& self.parents@.len() as int == self.len()
        &&& self.childlists@.len() as int == self.len()
    }

    /// Well-formedness of the document tree: the tables agree in length,
    /// child lists hold valid handles whose parent pointer points back at
    /// the list's owner, every attached handle occurs in its parent's list,
    /// and no child list repeats a handle.
    pub open spec fn wf(self) -> bool {
        &&& self.tables_agree()
        &&& forall|p: int, i: int|
            self.valid(p) && 0 <= i < self.children_of(p).len() ==> {
                let c = #[trigger] self.children_of(p)[i];
                &&& self.valid(c as int)
                &&& self.parent_of(c as int) == Some(p as usize)
            }
        &&& forall|c: int|
            self.valid(c) && (#[trigger] self.parent_of(c)) is Some ==> {
                let p = self.parent_of(c)->0;
                &&& self.valid(p as int)
                &&& self.children_of(p as int).contains(c as usize)
            }
        &&& forall|p: int| self.valid(p) ==> (#[trigger] self.children_of(p)).no_duplicates()
    }

    /// What allocation leaves behind: one fresh detached handle of the given
    /// kind and label, and every prior handle untouched.
    pub open spec fn created(
        pre: Backend,
        post: Backend,
        h: int,
        kind: HandleKind,
        label: Seq<char>,
    ) -> bool {
        &&& h == pre.len()
        &&& post.len() == pre.len() + 1
        &&& post.kind_of(h) == kind
        &&& post.label_of(h) == label
        &&& post.parent_of(h) is None
        &&& post.children_of(h) == Seq::<usize>::empty()
        &&& Backend::unchanged_at_old(pre, post)
    }

    /// Every handle of `pre` has the same kind, label, parent, and children
    /// in `post`.
    pub open spec fn unchanged_at_old(pre: Backend, post: Backend) -> bool {
        forall|x: int| pre.valid(x) ==> {
            &&& #[trigger] post.kind_of(x) == pre.kind_of(x)
            &&& post.label_of(x) == pre.label_of(x)
            &&& post.parent_of(x) == pre.parent_of(x)
            &&& post.children_of(x) == pre.children_of(x)
        }
    }

    /// A fresh, empty document.
    pub fn new() -> (b: Backend)
        ensures
            b.wf(),
            b.len() == 0,
    {
        Backend { kinds: Vec::new(), labels: Vec::new(), parents: Vec::new(), childlists: Vec::new() }
    }

    /// Allocate a fresh detached handle of the given kind and label.
    pub fn create(&mut self, kind: HandleKind, label: String) -> (h: usize)
        requires
            old(self).wf(),
        ensures
            final(self).wf(),
            Backend::created(*old(self), *final(self), h as int, kind, label@),
    {
        let h = self.kinds.len();
        self.kinds.push(kind);
        self.labels.push(label);
        self.parents.push(None);
        self.childlists.push(Vec::new());
        proof {
            let pre = *old(self);
            assert(self.children_of(pre.len()) =~= Seq::<usize>::empty());
            assert forall|x: int| pre.valid(x) implies {
                &&& #[trigger] self.kind_of(x) == pre.kind_of(x)
                &&& self.label_of(x) == pre.label_of(x)
                &&& self.parent_of(x) == pre.parent_of(x)
                &&& self.children_of(x) == pre.children_of(x)
            } by {
                assert(self.childlists@[x] == pre.childlists@[x]);
            }
            assert forall|p: int, i: int|
                self.valid(p) && 0 <= i < self.children_of(p).len() implies {
                let c = #[trigger] self.children_of(p)[i];
                &&& self.valid(c as int)
                &&& self.parent_of(c as int) == Some(p as usize)
            } by {
                assert(p < pre.len());
                assert(self.children_of(p) == pre.children_of(p));
                let c = pre.children_of(p)[i];
                assert(pre.valid(c as int) && pre.parent_of(c as int) == Some(p as usize));
            }
            assert forall|c: int|
                self.valid(c) && (#[trigger] self.parent_of(c)) is Some implies {
                let p = self.parent_of(c)->0;
                &&& self.valid(p as int)
                &&& self.children_of(p as int).contains(c as usize)
            } by {
                assert(c < pre.len());
                assert(self.parent_of(c) == pre.parent_of(c));
                let p = pre.parent_of(c)->0;
                assert(pre.valid(p as int) && pre.children_of(p as int).contains(c as usize));
                assert(self.children_of(p as int) == pre.children_of(p as int));
            }
            assert forall|p: int| self.valid(p) implies (
            #[trigger] self.children_of(p)).no_duplicates() by {
                if p < pre.len() {
                    assert(self.children_of(p) == pre.children_of(p));
                } else {
                    assert(self.children_of(p).len() == 0);
                }
            }
        }
        h
    }
    /// How many handles the document has allocated.
    pub fn handle_count(&self) -> (n: usize)
        ensures
            n as int == self.len(),
    {
        self.kinds.len()
    }

    /// The ordered child handles of `p`.
    pub fn child_handles(&self, p: usize) -> (r: &Vec<usize>)
        requires
            self.wf(),
            self.valid(p as int),
        ensures
            r@ == self.children_of(p as int),
    {
        &self.childlists[p]
    }

    /// The label of handle `h`.
    pub fn label(&self, h: usize) -> (r: &String)
        requires
            self.wf(),
            self.valid(h as int),
        ensures
            r@ == self.label_of(h as int),
    {
        &self.labels[h]
    }

    /// The kind of handle `h`.
    pub fn kind(&self, h: usize) -> (r: HandleKind)
        requires
            self.valid(h as int),
        ensures
            r == self.kind_of(h as int),
    {
        self.kinds[h]
    }

    /// The parent of handle `h`, if it is attached.
    pub fn parent(&self, h: usize) -> (r: Option<usize>)
        requires
            self.wf(),
            self.valid(h as int),
        ensures
            r == self.parent_of(h as int),
    {
        self.parents[h]
    }

    /// The position of `h` in `p`'s child list.
    fn position_of(&self, p: usize, h: usize) -> (i: usize)
        requires
            self.wf(),
            self.valid(p as int),
            self.children_of(p as int).contains(h),
        ensures
            i < self.children_of(p as int).len(),
            self.children_of(p as int)[i as int] == h,
    {
        let list = &self.childlists[p];
        let n = list.len();
        let mut i: usize = 0;
        while i < n
            invariant
                n == list@.len(),
                i <= n,
                list@ == self.children_of(p as int),
                forall|j: int| 0 <= j < i ==> list@[j] != h,
            decreases n - i,
        {
            if list[i] == h {
                return i;
            }
            i = i + 1;
        }
        proof {
            let j = choose|j: int| 0 <= j < list@.len() && list@[j] == h;
            assert(list@[j] != h);
        }
        unreached()
    }

    /// In a duplicate-free list, `index_of` finds the one position an
    /// element occupies.
    pub proof fn lemma_index_of_unique(list: Seq<usize>, i: int, h: usize)
        requires
            list.no_duplicates(),
            0 <= i < list.len(),
            list[i] == h,
        ensures
            list.index_of(h) == i,
    {
        assert(list.contains(h));
    }

    /// Append `c` as the last child of `p`.
    pub fn append_child(&mut self, p: usize, c: usize)
        requires
            old(self).wf(),
            old(self).valid(p as int),
            old(self).detached(c as int),
        ensures
            final(self).wf(),
            final(self).len() == old(self).len(),
            final(self).children_of(p as int) == old(self).children_of(p as int).push(c),
            final(self).parent_of(c as int) == Some(p),
            forall|x: int| old(self).valid(x) ==> #[trigger] final(self).kind_of(x)
                == old(self).kind_of(x) && final(self).label_of(x) == old(self).label_of(x),
            forall|x: int| old(self).valid(x) && x != c as int ==> #[trigger] final(self)
                .parent_of(x) == old(self).parent_of(x),
            forall|x: int| old(self).valid(x) && x != p as int ==> #[trigger] final(self)
                .children_of(x) == old(self).children_of(x),
    {
        proof {
            Self::lemma_detached_in_no_list(*self, c as int);
        }
        self.childlists[p].push(c);
        self.parents[c] = Some(p);
        proof {
            let list = old(self).children_of(p as int);
            assert(list.insert(list.len() as int, c) =~= list.push(c));
            self.lemma_wf_after_link(*old(self), p, c, list.len() as int);
        }
    }

    /// Insert `c` immediately before `anchor` in the child list of
    /// `anchor`'s parent.
    pub fn insert_before(&mut self, anchor: usize, c: usize)
        requires
            old(self).wf(),
            old(self).valid(anchor as int),
            old(self).parent_of(anchor as int) is Some,
            old(self).detached(c as int),
        ensures
            final(self).wf(),
            final(self).len() == old(self).len(),
            final(self).parent_of(c as int) == old(self).parent_of(anchor as int),
            ({
                let p = old(self).parent_of(anchor as int)->0 as int;
                let list = old(self).children_of(p);
                final(self).children_of(p) == list.insert(list.index_of(anchor), c)
            }),
            forall|x: int| old(self).valid(x) ==> #[trigger] final(self).kind_of(x)
                == old(self).kind_of(x) && final(self).label_of(x) == old(self).label_of(x),
            forall|x: int| old(self).valid(x) && x != c as int ==> #[trigger] final(self)
                .parent_of(x) == old(self).parent_of(x),
            forall|x: int| old(self).valid(x)
                && x != old(self).parent_of(anchor as int)->0 as int ==> #[trigger] final(self)
                .children_of(x) == old(self).children_of(x),
    {
        let p = self.parents[anchor].unwrap();
        let i = self.position_of(p, anchor);
        proof {
            Self::lemma_detached_in_no_list(*self, c as int);
            Self::lemma_index_of_unique(self.children_of(p as int), i as int, anchor);
        }
        self.childlists[p].insert(i, c);
        self.parents[c] = Some(p);
        proof {
            self.lemma_wf_after_link(*old(self), p, c, i as int);
        }
    }

    /// Detach `h` from its parent's child list. `h`'s own children, if
    /// any, stay with `h`.
    pub fn remove(&mut self, h: usize)
        requires
            old(self).wf(),
            old(self).valid(h as int),
            old(self).parent_of(h as int) is Some,
        ensures
            final(self).wf(),
            final(self).len() == old(self).len(),
            final(self).parent_of(h as int) is None,
            ({
                let p = old(self).parent_of(h as int)->0 as int;
                let list = old(self).children_of(p);
                final(self).children_of(p) == list.remove(list.index_of(h))
            }),
            forall|x: int| old(self).valid(x) ==> #[trigger] final(self).kind_of(x)
                == old(self).kind_of(x) && final(self).label_of(x) == old(self).label_of(x),
            forall|x: int| old(self).valid(x) && x != h as int ==> #[trigger] final(self)
                .parent_of(x) == old(self).parent_of(x),
            forall|x: int| old(self).valid(x)
                && x != old(self).parent_of(h as int)->0 as int ==> #[trigger] final(self)
                .children_of(x) == old(self).children_of(x),
    {
        let p = self.parents[h].unwrap();
        let i = self.position_of(p, h);
        proof {
            Self::lemma_index_of_unique(self.children_of(p as int), i as int, h);
        }
        self.childlists[p].remove(i);
        self.parents[h] = None;
        proof {
            let pre = *old(self);
            pre.lemma_len_fits();
            self.lemma_len_fits();
            let list = pre.children_of(p as int);
            list.remove_ensures(i as int);
            assert forall|q: int, k: int|
                self.valid(q) && 0 <= k < self.children_of(q).len() implies {
                let m = #[trigger] self.children_of(q)[k];
                &&& self.valid(m as int)
                &&& self.parent_of(m as int) == Some(q as usize)
            } by {
                if q == p as int {
                    let m = self.children_of(q)[k];
                    assert(m == if k < i as int { list[k] } else { list[k + 1] });
                    assert(pre.children_of(q).contains(m));
                    assert(m != h) by {
                        let k0: int = if k < i as int { k } else { k + 1 };
                        assert(list[k0] == m);
                        if m == h {
                            assert(list[i as int] == h);
                            assert(k0 == i as int);
                        }
                    }
                } else {
                    assert(self.children_of(q) == pre.children_of(q));
                    let m = self.children_of(q)[k];
                    assert(pre.valid(m as int) && pre.parent_of(m as int) == Some(q as usize));
                }
            }
            assert forall|x: int|
                self.valid(x) && (#[trigger] self.parent_of(x)) is Some implies {
                let q = self.parent_of(x)->0;
                &&& self.valid(q as int)
                &&& self.children_of(q as int).contains(x as usize)
            } by {
                assert(x != h as int);
                assert(pre.parent_of(x) == self.parent_of(x));
                let q = pre.parent_of(x)->0;
                assert(pre.children_of(q as int).contains(x as usize));
                if q == p {
                    let j = choose|j: int|
                        0 <= j < list.len() && list[j] == x as usize;
                    assert(j != i as int);
                    if j < i as int {
                        assert(self.children_of(q as int)[j] == x as usize);
                    } else {
                        assert(self.children_of(q as int)[j - 1] == x as usize);
                    }
                }
            }
            assert forall|q: int| self.valid(q) implies (
            #[trigger] self.children_of(q)).no_duplicates() by {
                if q == p as int {
                    assert forall|k1: int, k2: int|
                        0 <= k1 < k2 < self.children_of(q).len() implies self.children_of(q)[k1]
                        != self.children_of(q)[k2] by {
                        let a1: int = if k1 < i as int { k1 } else { k1 + 1 };
                        let a2: int = if k2 < i as int { k2 } else { k2 + 1 };
                        assert(self.children_of(q)[k1] == list[a1]);
                        assert(self.children_of(q)[k2] == list[a2]);
                    }
                } else {
                    assert(self.children_of(q) == pre.children_of(q));
                }
            }
        }
    }

    /// Handle numbers fit in `usize`: they index the backend's tables.
    proof fn lemma_len_fits(self)
        ensures
            self.len() <= usize::MAX as int,
    {
        vstd::std_specs::vec::axiom_spec_len(&self.kinds);
    }

    /// A detached handle stands in no child list.
    proof fn lemma_detached_in_no_list(b: Backend, c: int)
        requires
            b.wf(),
            b.detached(c),
        ensures
            forall|q: int| b.valid(q) ==> !(#[trigger] b.children_of(q)).contains(c as usize),
    {
        assert forall|q: int| b.valid(q) implies !(#[trigger] b.children_of(q)).contains(
            c as usize,
        ) by {
            b.lemma_len_fits();
            if b.children_of(q).contains(c as usize) {
                let j = choose|j: int|
                    0 <= j < b.children_of(q).len() && b.children_of(q)[j] == c as usize;
                assert(b.children_of(q)[j] == c as usize);
                assert(b.parent_of(c) == Some(q as usize));
            }
        }
    }

    /// After linking detached `c` into `p`'s child list at position `i`,
    /// the tree is still well formed.
    proof fn lemma_wf_after_link(self, pre: Backend, p: usize, c: usize, i: int)
        requires
            pre.wf(),
            pre.valid(p as int),
            pre.detached(c as int),
            0 <= i <= pre.children_of(p as int).len(),
            self.len() == pre.len(),
            self.children_of(p as int) == pre.children_of(p as int).insert(i, c),
            self.parent_of(c as int) == Some(p),
            forall|x: int| pre.valid(x) ==> #[trigger] self.kind_of(x) == pre.kind_of(x)
                && self.label_of(x) == pre.label_of(x),
            forall|x: int| pre.valid(x) && x != c as int ==> #[trigger] self.parent_of(x)
                == pre.parent_of(x),
            forall|x: int| pre.valid(x) && x != p as int ==> #[trigger] self.children_of(x)
                == pre.children_of(x),
            self.tables_agree(),
        ensures
            self.wf(),
    {
        let list = pre.children_of(p as int);
        list.insert_ensures(i, c);
        Self::lemma_detached_in_no_list(pre, c as int);
        assert forall|q: int, k: int|
            self.valid(q) && 0 <= k < self.children_of(q).len() implies {
            let m = #[trigger] self.children_of(q)[k];
            &&& self.valid(m as int)
            &&& self.parent_of(m as int) == Some(q as usize)
        } by {
            if q == p as int {
                let m = self.children_of(q)[k];
                if k == i {
                    assert(m == c);
                } else {
                    let k0: int = if k < i { k } else { k - 1 };
                    assert(m == list[k0]);
                    assert(pre.valid(m as int) && pre.parent_of(m as int) == Some(p));
                    assert(m != c);
                }
            } else {
                assert(self.children_of(q) == pre.children_of(q));
                let m = self.children_of(q)[k];
                assert(pre.valid(m as int) && pre.parent_of(m as int) == Some(q as usize));
                assert(m != c) by {
                    if m == c {
                        assert(pre.parent_of(c as int) is None);
                    }
                }
            }
        }
        assert forall|x: int|
            self.valid(x) && (#[trigger] self.parent_of(x)) is Some implies {
            let q = self.parent_of(x)->0;
            &&& self.valid(q as int)
            &&& self.children_of(q as int).contains(x as usize)
        } by {
            if x == c as int {
                assert(self.children_of(p as int)[i] == c);
            } else {
                let q = pre.parent_of(x)->0;
                assert(pre.children_of(q as int).contains(x as usize));
                if q == p {
                    let j = choose|j: int| 0 <= j < list.len() && list[j] == x as usize;
                    if j < i {
                        assert(self.children_of(q as int)[j] == x as usize);
                    } else {
                        assert(self.children_of(q as int)[j + 1] == x as usize);
                    }
                } else {
                    assert(self.children_of(q as int) == pre.children_of(q as int));
                }
            }
        }
        assert forall|q: int| self.valid(q) implies (
        #[trigger] self.children_of(q)).no_duplicates() by {
            if q == p as int {
                assert forall|k1: int, k2: int|
                    0 <= k1 < k2 < self.children_of(q).len() implies self.children_of(q)[k1]
                    != self.children_of(q)[k2] by {
                    let m1 = self.children_of(q)[k1];
                    let m2 = self.children_of(q)[k2];
                    if k1 == i {
                        let a2: int = k2 - 1;
                        assert(m1 == c && m2 == list[a2]);
                        assert(list.contains(m2));
                    } else if k2 == i {
                        let a1: int = k1;
                        assert(m2 == c && m1 == list[a1]);
                        assert(list.contains(m1));
                    } else {
                        let a1: int = if k1 < i { k1 } else { k1 - 1 };
                        let a2: int = if k2 < i { k2 } else { k2 - 1 };
                        assert(m1 == list[a1] && m2 == list[a2]);
                    }
                }
            } else {
                assert(self.children_of(q) == pre.children_of(q));
            }
        }
    }
}

} // verus!
