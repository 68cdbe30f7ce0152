//! The conversion protocol: one polymorphic operation that turns producer
//! values into a canonical [`Node`].
//!
//! Unit converts to an empty placeholder text node; `None` converts to the
//! same placeholder, `Some(t)` converts `t`; a node converts to itself; a
//! sequence of nodes converts to a fragment. Conversion cannot fail:
//! unsupported producers are rejected at the type level.

use vstd::prelude::*;
use crate::backend::Backend;
use crate::backend::HandleKind;
use crate::node::Component;
use crate::node::Element;
use crate::node::Node;
use crate::node::Text;

verus! {

/// What converting `()` or `None` leaves behind: one fresh, detached,
/// empty placeholder text node, and nothing else changed.
pub open spec fn placeholder_made(b0: Backend, b1: Backend, n: Node) -> bool {
    &&& n is Text
    &&& n->Text_0.spec_content() == Seq::<char>::empty()
    &&& Backend::created(
        b0,
        b1,
        n->Text_0.spec_handle() as int,
        HandleKind::Text,
        Seq::<char>::empty(),
    )
    &&& n->Text_0.linked(b1)
}

/// Converts a producer value into a [`Node`].
pub trait IntoNode: Sized {
    /// What this producer's conversion promises, relating the backend
    /// before and after the call to the node produced.
    spec fn into_node_ens(self, b0: Backend, b1: Backend, n: Node) -> bool;

    /// Converts the value into a [`Node`], allocating backend handles as
    /// needed. Conversion never mounts.
    fn into_node(self, b: &mut Backend) -> (n: Node)
        requires
            old(b).wf(),
        ensures
            final(b).wf(),
            Backend::unchanged_at_old(*old(b), *final(b)),
            old(b).len() <= final(b).len(),
            self.into_node_ens(*old(b), *final(b), n),
    ;
}

impl IntoNode for () {
    open spec fn into_node_ens(self, b0: Backend, b1: Backend, n: Node) -> bool {
        placeholder_made(b0, b1, n)
    }

    fn into_node(self, b: &mut Backend) -> (n: Node) {
        let t = Text::new(b, "");
        proof {
            reveal_strlit("");
            assert(""@ =~= Seq::<char>::empty());
        }
        Node::Text(t)
    }
}

impl<T: IntoNode> IntoNode for Option<T> {
    open spec fn into_node_ens(self, b0: Backend, b1: Backend, n: Node) -> bool {
        match self {
            Some(t) => t.into_node_ens(b0, b1, n),
            None => placeholder_made(b0, b1, n),
        }
    }

    fn into_node(self, b: &mut Backend) -> (n: Node) {
        match self {
            Some(t) => t.into_node(b),
            None => ().into_node(b),
        }
    }
}

impl IntoNode for Node {
    open spec fn into_node_ens(self, b0: Backend, b1: Backend, n: Node) -> bool {
        b1 == b0 && n == self
    }

    fn into_node(self, _b: &mut Backend) -> (n: Node) {
        self
    }
}

impl IntoNode for Element {
    open spec fn into_node_ens(self, b0: Backend, b1: Backend, n: Node) -> bool {
        b1 == b0 && n == Node::Element(self)
    }

    fn into_node(self, _b: &mut Backend) -> (n: Node) {
        Node::Element(self)
    }
}

impl IntoNode for Text {
    open spec fn into_node_ens(self, b0: Backend, b1: Backend, n: Node) -> bool {
        b1 == b0 && n == Node::Text(self)
    }

    fn into_node(self, _b: &mut Backend) -> (n: Node) {
        Node::Text(self)
    }
}

impl IntoNode for Component {
    open spec fn into_node_ens(self, b0: Backend, b1: Backend, n: Node) -> bool {
        b1 == b0 && n == Node::Component(self)
    }

    fn into_node(self, _b: &mut Backend) -> (n: Node) {
        Node::Component(self)
    }
}

impl IntoNode for Vec<Node> {
    open spec fn into_node_ens(self, b0: Backend, b1: Backend, n: Node) -> bool {
        b1 == b0 && n == Node::Fragment(self)
    }

    fn into_node(self, _b: &mut Backend) -> (n: Node) {
        Node::Fragment(self)
    }
}

} // verus!
