//! The laws the node-and-mounting layer obeys, stated and proved once,
//! over the same spec functions the operations' contracts use.

use vstd::prelude::*;
use crate::backend::Backend;
use crate::convert::IntoNode;
use crate::convert::placeholder_made;
use crate::mount::lemma_component_handles;
use crate::mount::mounted_at;
use crate::node::Component;
use crate::node::Element;
use crate::node::Node;
use crate::node::node_handles;
use crate::node::nodes_handles;
use crate::node::lemma_nodes_handles_take_step;

verus! {

/// Mounting then unmounting restores the surroundings. A mount leaves a
/// parent's child list as `a + hs + c`: the handles `hs` of the mounted
/// node as one block, between the part `a` before the mount point and the
/// part `c` after it. Unmounting that node removes exactly the block, so
/// the list returns to its pre-mount value `a + c`.
pub proof fn lemma_mount_unmount_round_trip(a: Seq<usize>, hs: Seq<usize>, c: Seq<usize>)
    ensures
        (a + hs + c).take(a.len() as int) + (a + hs + c).skip((a.len() + hs.len()) as int) == a
            + c,
{
    assert((a + hs + c).take(a.len() as int) + (a + hs + c).skip((a.len() + hs.len()) as int)
        =~= a + c);
}

/// A live component's opening marker precedes its closing marker in the
/// parent's child list, and exactly the handles of the component's
/// current children lie between the two.
pub proof fn lemma_markers_delimit_children(b: Backend, c: Component, p: int, i: int)
    requires
        mounted_at(b, Node::Component(c), p, i),
    ensures
        ({
            let list = b.children_of(p);
            let mid = nodes_handles(c.spec_children());
            &&& list[i] == c.spec_opening().spec_handle()
            &&& list[i + mid.len() + 1] == c.spec_closing().spec_handle()
            &&& i < i + mid.len() + 1
            &&& forall|j: int| 0 <= j < mid.len() ==> list[i + 1 + j] == mid[j]
        }),
{
    lemma_component_handles(c);
    let r = node_handles(Node::Component(c));
    let list = b.children_of(p);
    assert forall|j: int| 0 <= j < r.len() implies list[i + j] == r[j] by {
        assert(list.subrange(i, i + r.len() as int)[j] == r[j]);
    }
}

/// Converting `()` and converting `None` promise exactly the same thing,
/// whatever the producer type under the option: a fresh, empty
/// placeholder node.
pub proof fn lemma_unit_none_equivalent<T: IntoNode>(b0: Backend, b1: Backend, n: Node)
    ensures
        <() as IntoNode>::into_node_ens((), b0, b1, n) == <Option<T> as IntoNode>::into_node_ens(
            Option::<T>::None,
            b0,
            b1,
            n,
        ),
{
}

/// Two placeholder nodes cannot be told apart by anything but handle
/// identity: both are text nodes, both render the empty payload, and each
/// occupies exactly one fresh handle.
pub proof fn lemma_placeholders_indistinguishable(
    a0: Backend,
    a1: Backend,
    n1: Node,
    b0: Backend,
    b1: Backend,
    n2: Node,
)
    requires
        placeholder_made(a0, a1, n1),
        placeholder_made(b0, b1, n2),
    ensures
        n1 is Text && n2 is Text,
        n1->Text_0.spec_content() == n2->Text_0.spec_content(),
        n1->Text_0.spec_content().len() == 0,
        node_handles(n1).len() == 1 && node_handles(n2).len() == 1,
        a1.label_of(n1->Text_0.spec_handle() as int) == b1.label_of(
            n2->Text_0.spec_handle() as int,
        ),
{
}

/// A fragment resolves to its members' handles, concatenated in member
/// order: member `i`'s handles follow exactly the handles of members
/// `0..i`, whatever the internal handle count of each member.
pub proof fn lemma_fragment_yields_members(v: Vec<Node>)
    ensures
        node_handles(Node::Fragment(v)) == nodes_handles(v@),
        forall|i: int| 0 <= i < v@.len() ==> nodes_handles(v@.take(i + 1)) == nodes_handles(
            v@.take(i),
        ) + node_handles(v@[i]),
{
    assert forall|i: int| 0 <= i < v@.len() implies nodes_handles(v@.take(i + 1))
        == nodes_handles(v@.take(i)) + node_handles(v@[i]) by {
        lemma_nodes_handles_take_step(v@, i);
    }
}

/// A void element never has children: well-formedness pins its child
/// sequence to empty, and the mounting layer refuses to push a child onto
/// a void element in the first place.
pub proof fn lemma_void_element_childless(e: Element)
    requires
        e.void_ok(),
        e.spec_is_void(),
    ensures
        e.spec_children().len() == 0,
{
}

} // verus!
