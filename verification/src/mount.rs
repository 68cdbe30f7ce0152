//! The mounting protocol: attaching nodes to and detaching them from the
//! live tree.
//!
//! A node resolves to an ordered list of backend handles in document order
//! (see [`crate::node::node_handles`]). Mounting inserts those handles, in
//! order, at a target: either appended under a parent element, or inserted
//! immediately before a component's closing marker. Unmounting removes
//! exactly those handles, restoring the surrounding list.

use vstd::prelude::*;
use crate::backend::Backend;
use crate::node::Comment;
use crate::node::Component;
use crate::node::Element;
use crate::node::Node;
use crate::node::node_handles;
use crate::node::nodes_handles;
use crate::node::push_handles;

verus! {

/// A mount target: append under a parent element, or insert immediately
/// before a component's closing marker.
pub enum MountKind<'a> {
    /// Insert immediately before this component closing marker.
    Component(&'a Comment),
    /// Append as the last child of this element handle.
    Element(usize),
}

/// Whether every handle of `n` is allocated but detached, so that `n` can
/// be mounted, and no handle is owned twice.
pub open spec fn mountable(b: Backend, n: Node) -> bool {
    &&& forall|k: int| 0 <= k < node_handles(n).len() ==> b.detached(
        #[trigger] node_handles(n)[k] as int,
    )
    &&& node_handles(n).no_duplicates()
}

/// Whether `n`'s handles stand in `p`'s child list as one contiguous
/// block starting at position `i`.
pub open spec fn mounted_at(b: Backend, n: Node, p: int, i: int) -> bool {
    &&& b.valid(p)
    &&& 0 <= i
    &&& i + node_handles(n).len() <= b.children_of(p).len()
    &&& b.children_of(p).subrange(i, i + node_handles(n).len() as int) == node_handles(n)
}

/// Whether the target of `kind` is ready to receive a mount: a valid
/// parent element handle, or a closing marker that is attached.
pub open spec fn target_ok(b: Backend, kind: MountKind) -> bool {
    match kind {
        MountKind::Element(p) => b.valid(p as int),
        MountKind::Component(cm) => {
            &&& b.valid(cm.spec_handle() as int)
            &&& b.parent_of(cm.spec_handle() as int) is Some
        },
    }
}

/// The handle whose child list receives the mounted handles.
pub open spec fn spec_target_parent(b: Backend, kind: MountKind) -> int {
    match kind {
        MountKind::Element(p) => p as int,
        MountKind::Component(cm) => b.parent_of(cm.spec_handle() as int)->0 as int,
    }
}

/// Attach `child` to the live tree at the given target: all of `child`'s
/// handles are inserted, in document order, either appended at the end of
/// the parent element's child list or as a block immediately before the
/// closing marker.
pub fn mount_child(b: &mut Backend, kind: MountKind, child: &Node)
    requires
        old(b).wf(),
        mountable(*old(b), *child),
        target_ok(*old(b), kind),
    ensures
        final(b).wf(),
        final(b).len() == old(b).len(),
        forall|x: int| old(b).valid(x) ==> #[trigger] final(b).kind_of(x) == old(b).kind_of(x)
            && final(b).label_of(x) == old(b).label_of(x),
        forall|x: int| old(b).valid(x) && !node_handles(*child).contains(x as usize)
            ==> #[trigger] final(b).parent_of(x) == old(b).parent_of(x),
        forall|x: int| old(b).valid(x) && x != spec_target_parent(*old(b), kind)
            ==> #[trigger] final(b).children_of(x) == old(b).children_of(x),
        forall|k: int| 0 <= k < node_handles(*child).len() ==> #[trigger] final(b).parent_of(
            node_handles(*child)[k] as int,
        ) == Some(spec_target_parent(*old(b), kind) as usize),
        match kind {
            MountKind::Element(p) => {
                &&& final(b).children_of(p as int) == old(b).children_of(p as int)
                    + node_handles(*child)
                &&& mounted_at(
                    *final(b),
                    *child,
                    p as int,
                    old(b).children_of(p as int).len() as int,
                )
            },
            MountKind::Component(cm) => ({
                let p = spec_target_parent(*old(b), kind);
                let list = old(b).children_of(p);
                let ia = list.index_of(cm.spec_handle());
                &&& final(b).children_of(p) == list.take(ia) + node_handles(*child) + list.skip(
                    ia,
                )
                &&& mounted_at(*final(b), *child, p, ia)
            }),
        },
{
    let mut hs: Vec<usize> = Vec::new();
    push_handles(child, &mut hs);
    let ghost hseq = node_handles(*child);
    let n_h = hs.len();
    match kind {
        MountKind::Element(p) => {
            let ghost b0 = *b;
            let ghost pre = b0.children_of(p as int);
            let mut k: usize = 0;
            while k < n_h
                invariant
                    b.wf(),
                    hs@ == hseq,
                    hseq.no_duplicates(),
                    n_h == hs@.len(),
                    k <= n_h,
                    b0.wf(),
                    b0.valid(p as int),
                    b.len() == b0.len(),
                    pre == b0.children_of(p as int),
                    b.children_of(p as int) == pre + hseq.take(k as int),
                    forall|j: int| 0 <= j < hseq.len() ==> b.valid(#[trigger] hseq[j] as int),
                    forall|j: int| k <= j < hseq.len() ==> b.detached(#[trigger] hseq[j] as int),
                    forall|j: int| 0 <= j < k ==> #[trigger] b.parent_of(hseq[j] as int) == Some(
                        p,
                    ),
                    forall|x: int| b0.valid(x) ==> #[trigger] b.kind_of(x) == b0.kind_of(x)
                        && b.label_of(x) == b0.label_of(x),
                    forall|x: int| b0.valid(x) && !hseq.contains(x as usize)
                        ==> #[trigger] b.parent_of(x) == b0.parent_of(x),
                    forall|x: int| b0.valid(x) && x != p as int ==> #[trigger] b.children_of(x)
                        == b0.children_of(x),
                decreases n_h - k,
            {
                b.append_child(p, hs[k]);
                proof {
                    assert(hseq.take(k + 1 as int) =~= hseq.take(k as int).push(hseq[k as int]));
                    assert forall|j: int| 0 <= j < k implies #[trigger] b.parent_of(
                        hseq[j] as int,
                    ) == Some(p) by {
                        assert(hseq[j] != hseq[k as int]);
                        assert(b.valid(hseq[j] as int));
                    }
                }
                k = k + 1;
            }
            proof {
                assert(hseq.take(hseq.len() as int) =~= hseq);
                let post = b.children_of(p as int);
                assert(post.subrange(pre.len() as int, pre.len() + hseq.len() as int) =~= hseq);
            }
        },
        MountKind::Component(cm) => {
            let anchor = cm.handle();
            let ghost b0 = *b;
            let ghost p = b0.parent_of(anchor as int)->0;
            let ghost pre = b0.children_of(p as int);
            let ghost ia = pre.index_of(anchor);
            proof {
                assert(pre.contains(anchor));
                assert(pre[ia] == anchor);
            }
            let mut k: usize = 0;
            while k < n_h
                invariant
                    b.wf(),
                    hs@ == hseq,
                    hseq.no_duplicates(),
                    n_h == hs@.len(),
                    k <= n_h,
                    b0.wf(),
                    b0.valid(anchor as int),
                    b0.valid(p as int),
                    b0.parent_of(anchor as int) == Some(p as usize),
                    b.parent_of(anchor as int) == Some(p as usize),
                    b.len() == b0.len(),
                    pre == b0.children_of(p as int),
                    0 <= ia < pre.len(),
                    pre[ia] == anchor,
                    b.children_of(p as int) == pre.take(ia) + hseq.take(k as int) + pre.skip(ia),
                    forall|j: int| 0 <= j < hseq.len() ==> b.valid(#[trigger] hseq[j] as int),
                    forall|j: int| k <= j < hseq.len() ==> b.detached(#[trigger] hseq[j] as int),
                    forall|j: int| 0 <= j < k ==> #[trigger] b.parent_of(hseq[j] as int) == Some(
                        p as usize,
                    ),
                    forall|x: int| b0.valid(x) ==> #[trigger] b.kind_of(x) == b0.kind_of(x)
                        && b.label_of(x) == b0.label_of(x),
                    forall|x: int| b0.valid(x) && !hseq.contains(x as usize)
                        ==> #[trigger] b.parent_of(x) == b0.parent_of(x),
                    forall|x: int| b0.valid(x) && x != p as int ==> #[trigger] b.children_of(x)
                        == b0.children_of(x),
                decreases n_h - k,
            {
                let ghost cur = b.children_of(p as int);
                proof {
                    assert(cur[ia + k] == anchor);
                    Backend::lemma_index_of_unique(cur, ia + k, anchor);
                }
                b.insert_before(anchor, hs[k]);
                proof {
                    assert(b.children_of(p as int) =~= pre.take(ia) + hseq.take(k + 1 as int)
                        + pre.skip(ia));
                    assert forall|j: int| 0 <= j < k implies #[trigger] b.parent_of(
                        hseq[j] as int,
                    ) == Some(p as usize) by {
                        assert(hseq[j] != hseq[k as int]);
                        assert(b.valid(hseq[j] as int));
                    }
                }
                k = k + 1;
            }
            proof {
                assert(hseq.take(hseq.len() as int) =~= hseq);
                let post = b.children_of(p as int);
                assert(post.subrange(ia, ia + hseq.len() as int) =~= hseq);
            }
        },
    }
}

/// Detach `child` from the live tree: every one of its handles is removed
/// from `parent`'s child list, which closes back up around the removed
/// block, restoring its pre-mount surroundings.
pub fn unmount_child(b: &mut Backend, parent: usize, child: &Node)
    requires
        old(b).wf(),
        old(b).valid(parent as int),
        node_handles(*child).no_duplicates(),
        exists|i: int| mounted_at(*old(b), *child, parent as int, i),
    ensures
        final(b).wf(),
        final(b).len() == old(b).len(),
        forall|x: int| old(b).valid(x) ==> #[trigger] final(b).kind_of(x) == old(b).kind_of(x)
            && final(b).label_of(x) == old(b).label_of(x),
        forall|i: int| mounted_at(*old(b), *child, parent as int, i) ==> final(b).children_of(
            parent as int,
        ) == old(b).children_of(parent as int).take(i) + old(b).children_of(parent as int).skip(
            i + node_handles(*child).len() as int,
        ),
        forall|x: int| old(b).valid(x) && x != parent as int ==> #[trigger] final(b).children_of(
            x,
        ) == old(b).children_of(x),
        forall|k: int| 0 <= k < node_handles(*child).len() ==> final(b).detached(
            #[trigger] node_handles(*child)[k] as int,
        ),
        forall|x: int| old(b).valid(x) && !node_handles(*child).contains(x as usize)
            ==> #[trigger] final(b).parent_of(x) == old(b).parent_of(x),
{
    let mut hs: Vec<usize> = Vec::new();
    push_handles(child, &mut hs);
    let ghost hseq = node_handles(*child);
    let ghost b0 = *b;
    let ghost pre = b0.children_of(parent as int);
    let ghost i0 = choose|i: int| mounted_at(b0, *child, parent as int, i);
    proof {
        assert forall|j: int| 0 <= j < hseq.len() implies pre[i0 + j] == hseq[j] by {
            assert(pre.subrange(i0, i0 + hseq.len() as int)[j] == hseq[j]);
        }
    }
    let n_h = hs.len();
    let mut k: usize = 0;
    while k < n_h
        invariant
            b.wf(),
            hs@ == hseq,
            hseq.no_duplicates(),
            n_h == hs@.len(),
            k <= n_h,
            b0.wf(),
            b0.valid(parent as int),
            b.len() == b0.len(),
            pre == b0.children_of(parent as int),
            0 <= i0,
            i0 + hseq.len() <= pre.len(),
            forall|j: int| 0 <= j < hseq.len() ==> pre[i0 + j] == #[trigger] hseq[j],
            b.children_of(parent as int) == pre.take(i0) + hseq.skip(k as int) + pre.skip(
                i0 + hseq.len() as int,
            ),
            forall|j: int| 0 <= j < k ==> b.detached(#[trigger] hseq[j] as int),
            forall|j: int| 0 <= j < hseq.len() ==> b.valid(#[trigger] hseq[j] as int),
            forall|x: int| b0.valid(x) ==> #[trigger] b.kind_of(x) == b0.kind_of(x)
                && b.label_of(x) == b0.label_of(x),
            forall|x: int| b0.valid(x) && !hseq.contains(x as usize) ==> #[trigger] b.parent_of(
                x,
            ) == b0.parent_of(x),
            forall|x: int| b0.valid(x) && x != parent as int ==> #[trigger] b.children_of(x)
                == b0.children_of(x),
        decreases n_h - k,
    {
        let ghost cur = b.children_of(parent as int);
        proof {
            assert(cur[i0] == hseq[k as int]);
            assert(b.parent_of(hseq[k as int] as int) == Some(parent));
            Backend::lemma_index_of_unique(cur, i0, hseq[k as int]);
        }
        b.remove(hs[k]);
        proof {
            assert(b.children_of(parent as int) =~= pre.take(i0) + hseq.skip(k + 1 as int)
                + pre.skip(i0 + hseq.len() as int));
            assert forall|j: int| 0 <= j < k + 1 implies b.detached(
                #[trigger] hseq[j] as int,
            ) by {
                if j < k {
                    assert(hseq[j] != hseq[k as int]);
                    assert(b.valid(hseq[j] as int));
                }
            }
        }
        k = k + 1;
    }
    proof {
        assert(hseq.skip(hseq.len() as int) =~= Seq::<usize>::empty());
        assert(b.children_of(parent as int) =~= pre.take(i0) + pre.skip(i0 + hseq.len() as int));
        assert forall|i: int| mounted_at(b0, *child, parent as int, i) implies b.children_of(
            parent as int,
        ) == pre.take(i) + pre.skip(i + hseq.len() as int) by {
            if hseq.len() == 0 {
                assert(pre.take(i) + pre.skip(i) =~= pre);
                assert(pre.take(i0) + pre.skip(i0) =~= pre);
            } else {
                assert(pre.subrange(i, i + hseq.len() as int)[0] == hseq[0]);
                assert(pre[i] == hseq[0]);
                assert(pre[i0] == hseq[0]);
                assert(i == i0);
            }
        }
    }
}

/// A contiguous piece of a duplicate-free list is duplicate-free.
pub proof fn lemma_no_dup_subrange(s: Seq<usize>, lo: int, hi: int)
    requires
        s.no_duplicates(),
        0 <= lo <= hi <= s.len(),
    ensures
        s.subrange(lo, hi).no_duplicates(),
{
    assert forall|i: int, j: int|
        0 <= i < j < s.subrange(lo, hi).len() implies s.subrange(lo, hi)[i] != s.subrange(
        lo,
        hi,
    )[j] by {
        assert(s.subrange(lo, hi)[i] == s[lo + i]);
        assert(s.subrange(lo, hi)[j] == s[lo + j]);
    }
}

/// How a component's handles are laid out: the opening marker first, the
/// children's handles in order, the closing marker last.
pub proof fn lemma_component_handles(c: Component)
    ensures
        node_handles(Node::Component(c)) == seq![c.spec_opening().spec_handle()] + nodes_handles(
            c.children@,
        ) + seq![c.spec_closing().spec_handle()],
        node_handles(Node::Component(c)).len() == nodes_handles(c.children@).len() + 2,
        node_handles(Node::Component(c))[0] == c.spec_opening().spec_handle(),
        node_handles(Node::Component(c)).last() == c.spec_closing().spec_handle(),
        forall|j: int| 0 <= j < nodes_handles(c.children@).len() ==> node_handles(
            Node::Component(c),
        )[1 + j] == nodes_handles(c.children@)[j],
{
}

impl Element {
    /// Append `child` to this element's children: the child's handles are
    /// mounted at the end of the element's child list. A void element
    /// takes no children: the attempt is rejected here, at the
    /// verification boundary, not silently dropped.
    pub fn push_child(&mut self, b: &mut Backend, child: Node)
        requires
            old(b).wf(),
            !old(self).spec_is_void(),
            old(b).valid(old(self).spec_handle() as int),
            mountable(*old(b), child),
        ensures
            final(b).wf(),
            final(b).len() == old(b).len(),
            final(self).spec_name() == old(self).spec_name(),
            final(self).spec_is_void() == old(self).spec_is_void(),
            final(self).spec_handle() == old(self).spec_handle(),
            final(self).spec_attrs() == old(self).spec_attrs(),
            final(self).spec_children() == old(self).spec_children().push(child),
            final(self).void_ok(),
            final(b).children_of(old(self).spec_handle() as int) == old(b).children_of(
                old(self).spec_handle() as int,
            ) + node_handles(child),
            mounted_at(
                *final(b),
                child,
                old(self).spec_handle() as int,
                old(b).children_of(old(self).spec_handle() as int).len() as int,
            ),
            forall|x: int| old(b).valid(x) ==> #[trigger] final(b).kind_of(x) == old(b).kind_of(
                x,
            ) && final(b).label_of(x) == old(b).label_of(x),
            forall|x: int| old(b).valid(x) && !node_handles(child).contains(x as usize)
                ==> #[trigger] final(b).parent_of(x) == old(b).parent_of(x),
            forall|x: int| old(b).valid(x) && x != old(self).spec_handle() as int
                ==> #[trigger] final(b).children_of(x) == old(b).children_of(x),
    {
        let node = self.handle();
        mount_child(b, MountKind::Element(node), &child);
        self.children.push(child);
    }
}

impl Component {
    /// Append `child` to a live component: the child's handles are
    /// inserted immediately before the closing marker, and the child joins
    /// the component's child list. `parent` is the handle whose child list
    /// holds the component's region.
    pub fn push_child(&mut self, b: &mut Backend, parent: usize, child: Node)
        requires
            old(b).wf(),
            mountable(*old(b), child),
            exists|i: int|
                mounted_at(*old(b), Node::Component(*old(self)), parent as int, i),
        ensures
            final(b).wf(),
            final(b).len() == old(b).len(),
            final(self).spec_name() == old(self).spec_name(),
            final(self).spec_opening() == old(self).spec_opening(),
            final(self).spec_closing() == old(self).spec_closing(),
            final(self).spec_children() == old(self).spec_children().push(child),
            forall|i: int|
                mounted_at(*old(b), Node::Component(*old(self)), parent as int, i)
                    ==> #[trigger] mounted_at(
                    *final(b),
                    Node::Component(*final(self)),
                    parent as int,
                    i,
                ) && final(b).children_of(parent as int) == old(b).children_of(
                    parent as int,
                ).take(
                    i + node_handles(Node::Component(*old(self))).len() - 1,
                ) + node_handles(child) + old(b).children_of(parent as int).skip(
                    i + node_handles(Node::Component(*old(self))).len() - 1,
                ),
            forall|x: int| old(b).valid(x) ==> #[trigger] final(b).kind_of(x) == old(b).kind_of(
                x,
            ) && final(b).label_of(x) == old(b).label_of(x),
            forall|x: int| old(b).valid(x) && !node_handles(child).contains(x as usize)
                ==> #[trigger] final(b).parent_of(x) == old(b).parent_of(x),
            forall|x: int| old(b).valid(x) && x != parent as int ==> #[trigger] final(b)
                .children_of(x) == old(b).children_of(x),
    {
        let ghost b0 = *b;
        let ghost comp0 = Node::Component(*self);
        let ghost r0 = node_handles(comp0);
        let ghost lst = b0.children_of(parent as int);
        let ghost i0 = choose|i: int| mounted_at(b0, comp0, parent as int, i);
        let ghost close = self.spec_closing().spec_handle();
        proof {
            lemma_component_handles(*self);
            assert(lst.subrange(i0, i0 + r0.len() as int)[r0.len() - 1] == close);
            assert(lst[i0 + r0.len() - 1] == close);
            Backend::lemma_index_of_unique(lst, i0 + r0.len() - 1, close);
            assert(b0.parent_of(close as int) == Some(parent));
        }
        mount_child(b, MountKind::Component(&self.closing), &child);
        self.children.push(child);
        proof {
            let hc = node_handles(child);
            let ia = i0 + r0.len() - 1;
            let comp1 = Node::Component(*self);
            lemma_component_handles(*self);
            assert(self.children@ == old(self).children@.push(child));
            assert(self.children@.drop_last() =~= old(self).children@);
            assert(nodes_handles(self.children@) == nodes_handles(old(self).children@)
                + node_handles(child));
            let r1 = node_handles(comp1);
            assert(r1.len() == r0.len() + hc.len());
            let cur = b.children_of(parent as int);
            assert(cur == lst.take(ia) + hc + lst.skip(ia));
            assert forall|i: int|
                mounted_at(b0, comp0, parent as int, i) implies #[trigger] mounted_at(
                *final(b),
                comp1,
                parent as int,
                i,
            ) && cur == lst.take(i + r0.len() - 1) + hc + lst.skip(i + r0.len() - 1) by {
                assert(lst.subrange(i, i + r0.len() as int)[0] == r0[0]);
                assert(lst[i] == r0[0]);
                assert(lst.subrange(i0, i0 + r0.len() as int)[0] == r0[0]);
                assert(lst[i0] == r0[0]);
                assert(i == i0);
                assert(cur.subrange(i0, i0 + r1.len() as int) =~= r1);
            }
        }
    }

    /// Replace everything between this live component's markers with
    /// `new`: the previously mounted children are unmounted, to completion,
    /// and only then is `new` mounted in their place, immediately before
    /// the closing marker. This is the atomic in-place replacement a
    /// dynamic child performs on each recomputation.
    pub fn replace_children(&mut self, b: &mut Backend, parent: usize, new: Node)
        requires
            old(b).wf(),
            mountable(*old(b), new),
            exists|i: int|
                mounted_at(*old(b), Node::Component(*old(self)), parent as int, i),
        ensures
            final(b).wf(),
            final(b).len() == old(b).len(),
            final(self).spec_name() == old(self).spec_name(),
            final(self).spec_opening() == old(self).spec_opening(),
            final(self).spec_closing() == old(self).spec_closing(),
            final(self).spec_children() == seq![new],
            forall|i: int|
                mounted_at(*old(b), Node::Component(*old(self)), parent as int, i)
                    ==> #[trigger] mounted_at(
                    *final(b),
                    Node::Component(*final(self)),
                    parent as int,
                    i,
                ) && final(b).children_of(parent as int) == old(b).children_of(
                    parent as int,
                ).take(i) + node_handles(Node::Component(*final(self))) + old(b).children_of(
                    parent as int,
                ).skip(i + node_handles(Node::Component(*old(self))).len() as int),
            forall|k: int| 0 <= k < nodes_handles(old(self).spec_children()).len() ==> final(b)
                .detached(#[trigger] nodes_handles(old(self).spec_children())[k] as int),
            forall|x: int| old(b).valid(x) ==> #[trigger] final(b).kind_of(x) == old(b).kind_of(
                x,
            ) && final(b).label_of(x) == old(b).label_of(x),
            forall|x: int|
                old(b).valid(x) && !nodes_handles(old(self).spec_children()).contains(x as usize)
                    && !node_handles(new).contains(x as usize) ==> #[trigger] final(b).parent_of(
                    x,
                ) == old(b).parent_of(x),
            forall|x: int| old(b).valid(x) && x != parent as int ==> #[trigger] final(b)
                .children_of(x) == old(b).children_of(x),
    {
        let ghost b0 = *b;
        let ghost comp0 = Node::Component(*self);
        let ghost r0 = node_handles(comp0);
        let ghost chs0 = self.children@;
        let ghost lst = b0.children_of(parent as int);
        let ghost i0 = choose|i: int| mounted_at(b0, comp0, parent as int, i);
        let ghost opening0 = self.spec_opening();
        let ghost closing0 = self.spec_closing();
        let ghost name0 = self.spec_name();
        let ghost open = opening0.spec_handle();
        let ghost close = closing0.spec_handle();
        let ghost hnew = node_handles(new);
        proof {
            lemma_component_handles(*self);
            assert(b0.valid(parent as int));
            assert forall|j: int| 0 <= j < r0.len() implies lst[i0 + j] == r0[j] by {
                assert(lst.subrange(i0, i0 + r0.len() as int)[j] == r0[j]);
            }
            assert(b.children_of(parent as int) =~= lst.take(i0) + seq![open] + nodes_handles(
                self.children@,
            ) + seq![close] + lst.skip(i0 + r0.len() as int));
        }
        while self.children.len() > 0
            invariant
                b.wf(),
                b.len() == b0.len(),
                b0.wf(),
                b0.valid(parent as int),
                self.spec_opening() == opening0,
                self.spec_closing() == closing0,
                self.spec_name() == name0,
                0 <= i0,
                i0 + r0.len() <= lst.len(),
                lst == b0.children_of(parent as int),
                r0.len() == nodes_handles(chs0).len() + 2,
                self.children@.len() <= chs0.len(),
                self.children@ == chs0.take(self.children@.len() as int),
                nodes_handles(chs0) == nodes_handles(self.children@) + nodes_handles(chs0).skip(
                    nodes_handles(self.children@).len() as int,
                ),
                b.children_of(parent as int) == lst.take(i0) + seq![open] + nodes_handles(
                    self.children@,
                ) + seq![close] + lst.skip(i0 + r0.len() as int),
                forall|k: int|
                    nodes_handles(self.children@).len() <= k < nodes_handles(chs0).len()
                        ==> b.detached(#[trigger] nodes_handles(chs0)[k] as int),
                forall|k: int| 0 <= k < hnew.len() ==> b.detached(#[trigger] hnew[k] as int),
                hnew.no_duplicates(),
                forall|x: int| b0.valid(x) ==> #[trigger] b.kind_of(x) == b0.kind_of(x)
                    && b.label_of(x) == b0.label_of(x),
                forall|x: int| b0.valid(x) && x != parent as int ==> #[trigger] b.children_of(x)
                    == b0.children_of(x),
                forall|x: int| b0.valid(x) && !nodes_handles(chs0).contains(x as usize)
                    ==> #[trigger] b.parent_of(x) == b0.parent_of(x),
            decreases self.children.len(),
        {
            let ghost before = self.children@;
            let ghost cur = b.children_of(parent as int);
            let ch = self.children.pop().unwrap();
            let ghost after = self.children@;
            let ghost hch = node_handles(ch);
            let ghost st = i0 + 1 + nodes_handles(after).len();
            proof {
                assert(before.drop_last() == after);
                assert(before.last() == ch);
                assert(after == before.subrange(0, before.len() - 1));
                assert(before == chs0.take(before.len() as int));
                assert forall|j: int| 0 <= j < after.len() implies after[j] == chs0.take(
                    after.len() as int,
                )[j] by {
                    assert(after[j] == before[j]);
                    assert(before[j] == chs0.take(before.len() as int)[j]);
                    assert(chs0.take(before.len() as int)[j] == chs0.subrange(
                        0,
                        before.len() as int,
                    )[j]);
                    assert(chs0.subrange(0, before.len() as int)[j] == chs0[j]);
                    assert(chs0.take(after.len() as int)[j] == chs0.subrange(
                        0,
                        after.len() as int,
                    )[j]);
                    assert(chs0.subrange(0, after.len() as int)[j] == chs0[j]);
                }
                assert(after =~= chs0.take(after.len() as int));
                assert(nodes_handles(before) == nodes_handles(after) + hch);
                assert(cur.subrange(st, st + hch.len() as int) =~= hch);
                assert(mounted_at(*b, ch, parent as int, st));
                lemma_no_dup_subrange(cur, st, st + hch.len() as int);
                assert(hch.no_duplicates());
            }
            unmount_child(b, parent, &ch);
            proof {
                assert(b.children_of(parent as int) == cur.take(st) + cur.skip(
                    st + hch.len() as int,
                ));
                assert(b.children_of(parent as int) =~= lst.take(i0) + seq![open]
                    + nodes_handles(after) + seq![close] + lst.skip(i0 + r0.len() as int));
                assert(nodes_handles(chs0) =~= nodes_handles(after) + nodes_handles(chs0).skip(
                    nodes_handles(after).len() as int,
                ));
                assert forall|k: int|
                    nodes_handles(after).len() <= k < nodes_handles(chs0).len() implies b
                    .detached(#[trigger] nodes_handles(chs0)[k] as int) by {
                    let m = nodes_handles(chs0)[k];
                    if k < nodes_handles(before).len() {
                        let j = k - nodes_handles(after).len();
                        assert(nodes_handles(chs0)[k] == hch[j]);
                        assert(b.detached(hch[j] as int));
                    } else {
                        assert(!hch.contains(m)) by {
                            if hch.contains(m) {
                                let j = choose|j: int|
                                    0 <= j < hch.len() && hch[j] == m;
                                assert(cur[st + j] == m);
                                assert(b0.valid(m as int));
                            }
                        }
                    }
                }
                assert forall|k: int| 0 <= k < hnew.len() implies b.detached(
                    #[trigger] hnew[k] as int,
                ) by {
                    assert(!hch.contains(hnew[k])) by {
                        if hch.contains(hnew[k]) {
                            let j = choose|j: int|
                                0 <= j < hch.len() && hch[j] == hnew[k];
                            assert(cur[st + j] == hnew[k]);
                        }
                    }
                }
                assert forall|x: int|
                    b0.valid(x) && !nodes_handles(chs0).contains(x as usize) implies #[trigger] b
                    .parent_of(x) == b0.parent_of(x) by {
                    assert(!hch.contains(x as usize)) by {
                        if hch.contains(x as usize) {
                            let j = choose|j: int|
                                0 <= j < hch.len() && hch[j] == x as usize;
                            let k = nodes_handles(after).len() + j;
                            assert(nodes_handles(chs0)[k] == x as usize);
                        }
                    }
                }
            }
        }
        let ghost cur2 = b.children_of(parent as int);
        proof {
            assert(nodes_handles(self.children@) =~= Seq::<usize>::empty());
            assert(cur2 =~= lst.take(i0) + seq![open] + seq![close] + lst.skip(
                i0 + r0.len() as int,
            ));
            assert(cur2[i0 + 1] == close);
            assert(b.parent_of(close as int) == Some(parent));
            Backend::lemma_index_of_unique(cur2, i0 + 1, close);
        }
        mount_child(b, MountKind::Component(&self.closing), &new);
        self.children.push(new);
        proof {
            let comp1 = Node::Component(*self);
            lemma_component_handles(*self);
            crate::node::lemma_nodes_handles_singleton(new);
            assert(self.children@ =~= seq![new]);
            let r1 = node_handles(comp1);
            assert(r1 =~= seq![open] + hnew + seq![close]);
            let fin = b.children_of(parent as int);
            assert(fin == cur2.take(i0 + 1) + hnew + cur2.skip(i0 + 1));
            assert(fin =~= lst.take(i0) + r1 + lst.skip(i0 + r0.len() as int));
            assert(fin.subrange(i0, i0 + r1.len() as int) =~= r1);
            assert(mounted_at(*b, comp1, parent as int, i0));
            assert forall|i: int|
                mounted_at(b0, comp0, parent as int, i) implies #[trigger] mounted_at(
                *final(b),
                comp1,
                parent as int,
                i,
            ) && final(b).children_of(parent as int) == lst.take(i) + r1 + lst.skip(
                i + r0.len() as int,
            ) by {
                assert(lst.subrange(i, i + r0.len() as int)[0] == r0[0]);
                assert(lst[i] == r0[0]);
                assert(lst[i0] == r0[0]);
                assert(i == i0);
            }
            assert forall|k: int| 0 <= k < nodes_handles(chs0).len() implies final(b).detached(
                #[trigger] nodes_handles(chs0)[k] as int,
            ) by {
                let m = nodes_handles(chs0)[k];
                assert(b0.valid(m as int));
                assert(!hnew.contains(m)) by {
                    if hnew.contains(m) {
                        let j = choose|j: int| 0 <= j < hnew.len() && hnew[j] == m;
                        assert(b0.detached(hnew[j] as int));
                        assert(lst[i0 + 1 + k] == m);
                        assert(b0.parent_of(m as int) == Some(parent));
                    }
                }
            }
        }
    }
}

} // verus!