//! The node model: everything that can appear in the tree.
//!
//! A [`Node`] is an element, a text node, a component boundary, or a
//! fragment. Elements and texts own one backend handle each. A component
//! owns two comment marker handles — an opening and a closing marker — and
//! the children mounted between them. A fragment owns no handle of its own:
//! it is an ordered group of nodes.

use vstd::prelude::*;
use crate::backend::Backend;
use crate::backend::HandleKind;

verus! {

/// Whether `s` names a void element: one that can never have children.
pub open spec fn spec_is_void_name(s: Seq<char>) -> bool {
    ||| s == "area"@
    ||| s == "base"@
    ||| s == "br"@
    ||| s == "col"@
    ||| s == "embed"@
    ||| s == "hr"@
    ||| s == "img"@
    ||| s == "input"@
    ||| s == "link"@
    ||| s == "meta"@
    ||| s == "param"@
    ||| s == "source"@
    ||| s == "track"@
    ||| s == "wbr"@
}

/// Whether two string slices hold the same characters.
fn str_eq(a: &str, b: &str) -> (r: bool)
    ensures
        r == (a@ == b@),
{
    let sa = String::from_str(a);
    let sb = String::from_str(b);
    sa == sb
}

/// The fixed table of void element names.
pub fn is_void_name(name: &str) -> (r: bool)
    ensures
        r == spec_is_void_name(name@),
{
    str_eq(name, "area") || str_eq(name, "base") || str_eq(name, "br") || str_eq(name, "col")
        || str_eq(name, "embed") || str_eq(name, "hr") || str_eq(name, "img") || str_eq(
        name,
        "input",
    ) || str_eq(name, "link") || str_eq(name, "meta") || str_eq(name, "param") || str_eq(
        name,
        "source",
    ) || str_eq(name, "track") || str_eq(name, "wbr")
}

/// HTML element: a named host node with attributes and an ordered child
/// sequence, owning one backend handle.
pub struct Element {
    /// The element's name.
    pub name: String,
    /// Whether the element is void: a void element can never have children.
    pub is_void: bool,
    /// The element's backend handle.
    pub node: usize,
    /// The element's attributes, in insertion order, keys unique.
    pub attributes: Vec<(String, String)>,
    /// The element's child nodes, in declaration order.
    pub children: Vec<Node>,
}

/// HTML text: an immutable string payload owning one backend text handle.
pub struct Text {
    /// The text's backend handle.
    pub node: usize,
    /// The text's payload.
    pub content: String,
}

/// A marker node: a backend comment handle used as a stable insertion
/// anchor, never user-visible content.
pub struct Comment {
    /// The marker's backend handle.
    pub node: usize,
    /// The marker's annotation.
    pub content: String,
}

/// A component boundary: a named pair of marker handles with the children
/// mounted between them.
pub struct Component {
    /// The component's name.
    pub name: String,
    /// The opening marker.
    pub opening: Comment,
    /// The children mounted between the markers, in declaration order.
    pub children: Vec<Node>,
    /// The closing marker.
    pub closing: Comment,
}

/// A renderable node: the closed set of variants the mounting protocol
/// understands.
pub enum Node {
    /// HTML element node.
    Element(Element),
    /// HTML text node.
    Text(Text),
    /// Component boundary node.
    Component(Component),
    /// An ordered group of nodes with no handle of its own; it mounts as
    /// the concatenation of its members.
    Fragment(Vec<Node>),
}

impl Element {
    /// The element's name.
    pub open spec fn spec_name(self) -> Seq<char> {
        self.name@
    }

    /// Whether the element is void.
    pub open spec fn spec_is_void(self) -> bool {
        self.is_void
    }

    /// The element's backend handle.
    pub open spec fn spec_handle(self) -> usize {
        self.node
    }

    /// The element's attributes, in insertion order.
    pub open spec fn spec_attrs(self) -> Seq<(String, String)> {
        self.attributes@
    }

    /// The element's child nodes, in declaration order.
    pub open spec fn spec_children(self) -> Seq<Node> {
        self.children@
    }

    /// A void element never has children.
    pub open spec fn void_ok(self) -> bool {
        self.spec_is_void() ==> self.spec_children().len() == 0
    }

    /// The element's handle is an element node of the backend, labeled
    /// with the element's name.
    pub open spec fn linked(self, b: Backend) -> bool {
        &&& b.valid(self.spec_handle() as int)
        &&& b.kind_of(self.spec_handle() as int) == HandleKind::Element
        &&& b.label_of(self.spec_handle() as int) == self.spec_name()
    }

    /// Create a detached element. Its void-ness is determined by its name,
    /// from the fixed table of void element names.
    pub fn new(b: &mut Backend, name: &str) -> (e: Element)
        requires
            old(b).wf(),
        ensures
            final(b).wf(),
            Backend::created(
                *old(b),
                *final(b),
                e.spec_handle() as int,
                HandleKind::Element,
                name@,
            ),
            e.spec_name() == name@,
            e.spec_is_void() == spec_is_void_name(name@),
            e.spec_children() == Seq::<Node>::empty(),
            e.spec_attrs() == Seq::<(String, String)>::empty(),
            e.linked(*final(b)),
            e.void_ok(),
    {
        let is_void = is_void_name(name);
        let node = b.create(HandleKind::Element, String::from_str(name));
        Element {
            name: String::from_str(name),
            is_void,
            node,
            attributes: Vec::new(),
            children: Vec::new(),
        }
    }

    /// The element's backend handle.
    pub fn handle(&self) -> (h: usize)
        ensures
            h == self.spec_handle(),
    {
        self.node
    }

    /// Whether the element is void.
    pub fn is_void(&self) -> (r: bool)
        ensures
            r == self.spec_is_void(),
    {
        self.is_void
    }

    /// How many children the element holds.
    pub fn children_len(&self) -> (n: usize)
        ensures
            n as int == self.spec_children().len(),
    {
        self.children.len()
    }
}

impl Text {
    /// The text's payload.
    pub open spec fn spec_content(self) -> Seq<char> {
        self.content@
    }

    /// The text's backend handle.
    pub open spec fn spec_handle(self) -> usize {
        self.node
    }

    /// The text's handle is a text node of the backend, labeled with the
    /// payload.
    pub open spec fn linked(self, b: Backend) -> bool {
        &&& b.valid(self.spec_handle() as int)
        &&& b.kind_of(self.spec_handle() as int) == HandleKind::Text
        &&& b.label_of(self.spec_handle() as int) == self.spec_content()
    }

    /// Create a detached text node.
    pub fn new(b: &mut Backend, content: &str) -> (t: Text)
        requires
            old(b).wf(),
        ensures
            final(b).wf(),
            Backend::created(
                *old(b),
                *final(b),
                t.spec_handle() as int,
                HandleKind::Text,
                content@,
            ),
            t.spec_content() == content@,
            t.linked(*final(b)),
    {
        let node = b.create(HandleKind::Text, String::from_str(content));
        Text { node, content: String::from_str(content) }
    }

    /// The text's backend handle.
    pub fn handle(&self) -> (h: usize)
        ensures
            h == self.spec_handle(),
    {
        self.node
    }

    /// The text's payload.
    pub fn content(&self) -> (r: &String)
        ensures
            r@ == self.spec_content(),
    {
        &self.content
    }
}

impl Comment {
    /// The marker's annotation.
    pub open spec fn spec_content(self) -> Seq<char> {
        self.content@
    }

    /// The marker's backend handle.
    pub open spec fn spec_handle(self) -> usize {
        self.node
    }

    /// The marker's handle is a comment node of the backend, labeled with
    /// the annotation.
    pub open spec fn linked(self, b: Backend) -> bool {
        &&& b.valid(self.spec_handle() as int)
        &&& b.kind_of(self.spec_handle() as int) == HandleKind::Comment
        &&& b.label_of(self.spec_handle() as int) == self.spec_content()
    }

    /// Create a detached marker with the given annotation.
    pub fn new(b: &mut Backend, content: &str) -> (c: Comment)
        requires
            old(b).wf(),
        ensures
            final(b).wf(),
            Backend::created(
                *old(b),
                *final(b),
                c.spec_handle() as int,
                HandleKind::Comment,
                content@,
            ),
            c.spec_content() == content@,
            c.linked(*final(b)),
    {
        let node = b.create(HandleKind::Comment, String::from_str(content));
        Comment { node, content: String::from_str(content) }
    }

    /// The marker's backend handle.
    pub fn handle(&self) -> (h: usize)
        ensures
            h == self.spec_handle(),
    {
        self.node
    }

    /// The marker's annotation.
    pub fn content(&self) -> (r: &String)
        ensures
            r@ == self.spec_content(),
    {
        &self.content
    }
}

impl Component {
    /// The component's name.
    pub open spec fn spec_name(self) -> Seq<char> {
        self.name@
    }

    /// The opening marker.
    pub open spec fn spec_opening(self) -> Comment {
        self.opening
    }

    /// The closing marker.
    pub open spec fn spec_closing(self) -> Comment {
        self.closing
    }

    /// The component's children, in declaration order.
    pub open spec fn spec_children(self) -> Seq<Node> {
        self.children@
    }

    /// The markers are distinct comment nodes of the backend, annotated
    /// with the open and close annotations derived from the name.
    pub open spec fn linked(self, b: Backend) -> bool {
        &&& self.spec_opening().linked(b)
        &&& self.spec_closing().linked(b)
        &&& self.spec_opening().spec_handle() != self.spec_closing().spec_handle()
        &&& self.spec_opening().spec_content() == seq!['<'] + self.spec_name() + seq!['>']
        &&& self.spec_closing().spec_content() == seq!['<', '/'] + self.spec_name() + seq!['>']
    }

    /// Create a detached component boundary named `name`: two fresh marker
    /// handles annotated `<name>` and `</name>`, and no children yet.
    pub fn new(b: &mut Backend, name: &str) -> (c: Component)
        requires
            old(b).wf(),
        ensures
            final(b).wf(),
            final(b).len() == old(b).len() + 2,
            Backend::unchanged_at_old(*old(b), *final(b)),
            c.spec_name() == name@,
            c.spec_children() == Seq::<Node>::empty(),
            c.linked(*final(b)),
            c.spec_opening().spec_handle() as int == old(b).len(),
            c.spec_closing().spec_handle() as int == old(b).len() + 1,
            final(b).parent_of(c.spec_opening().spec_handle() as int) is None,
            final(b).parent_of(c.spec_closing().spec_handle() as int) is None,
            final(b).children_of(c.spec_opening().spec_handle() as int) == Seq::<usize>::empty(),
            final(b).children_of(c.spec_closing().spec_handle() as int) == Seq::<usize>::empty(),
    {
        let mut open_label = String::from_str("<");
        open_label.append(name);
        open_label.append(">");
        let mut close_label = String::from_str("</");
        close_label.append(name);
        close_label.append(">");
        proof {
            reveal_strlit("<");
            reveal_strlit("</");
            reveal_strlit(">");
            assert(open_label@ =~= seq!['<'] + name@ + seq!['>']);
            assert(close_label@ =~= seq!['<', '/'] + name@ + seq!['>']);
        }
        let opening = Comment::new(b, open_label.as_str());
        let closing = Comment::new(b, close_label.as_str());
        Component { name: String::from_str(name), opening, children: Vec::new(), closing }
    }

    /// The opening marker.
    pub fn opening(&self) -> (r: &Comment)
        ensures
            *r == self.spec_opening(),
    {
        &self.opening
    }

    /// The closing marker.
    pub fn closing(&self) -> (r: &Comment)
        ensures
            *r == self.spec_closing(),
    {
        &self.closing
    }

    /// How many children the component holds.
    pub fn children_len(&self) -> (n: usize)
        ensures
            n as int == self.spec_children().len(),
    {
        self.children.len()
    }

    /// The component's children, in declaration order.
    pub fn children(&self) -> (r: &Vec<Node>)
        ensures
            r@ == self.spec_children(),
    {
        &self.children
    }
}

/// The backend handles a node resolves to, in document order.
pub open spec fn node_handles(n: Node) -> Seq<usize>
    decreases n,
{
    match n {
        Node::Element(e) => seq![e.spec_handle()],
        Node::Text(t) => seq![t.spec_handle()],
        Node::Component(c) => seq![c.spec_opening().spec_handle()] + nodes_handles(
            c.children@,
        ) + seq![c.spec_closing().spec_handle()],
        Node::Fragment(ns) => nodes_handles(ns@),
    }
}

/// The handles a sequence of nodes resolves to: the concatenation of each
/// member's handles, in order.
pub open spec fn nodes_handles(s: Seq<Node>) -> Seq<usize>
    decreases s,
{
    if s.len() == 0 {
        Seq::<usize>::empty()
    } else {
        nodes_handles(s.drop_last()) + node_handles(s.last())
    }
}

/// Extending a node sequence by one member appends that member's handles.
pub proof fn lemma_nodes_handles_take_step(s: Seq<Node>, i: int)
    requires
        0 <= i < s.len(),
    ensures
        nodes_handles(s.take(i + 1)) == nodes_handles(s.take(i)) + node_handles(s[i]),
{
    let t = s.take(i + 1);
    assert(t.drop_last() =~= s.take(i));
    assert(t.last() == s[i]);
}

/// Concatenating node sequences concatenates their handles.
pub proof fn lemma_nodes_handles_concat(a: Seq<Node>, b: Seq<Node>)
    ensures
        nodes_handles(a + b) == nodes_handles(a) + nodes_handles(b),
    decreases b.len(),
{
    if b.len() == 0 {
        assert(a + b =~= a);
        assert(nodes_handles(a) + nodes_handles(b) =~= nodes_handles(a));
    } else {
        lemma_nodes_handles_concat(a, b.drop_last());
        assert((a + b).drop_last() =~= a + b.drop_last());
        assert((a + b).last() == b.last());
        assert(nodes_handles(a) + nodes_handles(b.drop_last()) + node_handles(b.last()) =~= nodes_handles(
            a,
        ) + nodes_handles(b));
    }
}

/// A single node resolves to its own handles.
pub proof fn lemma_nodes_handles_singleton(n: Node)
    ensures
        nodes_handles(seq![n]) == node_handles(n),
{
    assert(seq![n].len() == 1);
    assert(seq![n].drop_last() =~= Seq::<Node>::empty());
    assert(seq![n].last() == n);
    assert(nodes_handles(seq![n]) == nodes_handles(Seq::<Node>::empty()) + node_handles(n));
    assert(Seq::<usize>::empty() + node_handles(n) =~= node_handles(n));
}

/// Splitting off the first member splits its handles off the front.
pub proof fn lemma_nodes_handles_skip_step(s: Seq<Node>, i: int)
    requires
        0 <= i < s.len(),
    ensures
        nodes_handles(s.skip(i)) == node_handles(s[i]) + nodes_handles(s.skip(i + 1)),
{
    assert(s.skip(i) =~= seq![s[i]] + s.skip(i + 1));
    lemma_nodes_handles_concat(seq![s[i]], s.skip(i + 1));
    lemma_nodes_handles_singleton(s[i]);
}

/// Append the handles of the members of `s` from position `from` on.
fn push_handles_from(s: &Vec<Node>, from: usize, out: &mut Vec<usize>)
    requires
        from <= s@.len(),
    ensures
        final(out)@ == old(out)@ + nodes_handles(s@.skip(from as int)),
    decreases s@, s@.len() - from,
{
    if from < s.len() {
        proof {
            lemma_nodes_handles_skip_step(s@, from as int);
        }
        push_handles(&s[from], out);
        push_handles_from(s, from + 1, out);
        assert(out@ =~= old(out)@ + nodes_handles(s@.skip(from as int)));
    } else {
        assert(s@.skip(from as int) =~= Seq::<Node>::empty());
        assert(out@ =~= old(out)@ + nodes_handles(s@.skip(from as int)));
    }
}

/// Append the handles of `n`, in document order, to `out`.
pub fn push_handles(n: &Node, out: &mut Vec<usize>)
    ensures
        final(out)@ == old(out)@ + node_handles(*n),
    decreases *n, 0int,
{
    match n {
        Node::Element(e) => {
            out.push(e.node);
            assert(out@ =~= old(out)@ + node_handles(*n));
        },
        Node::Text(t) => {
            out.push(t.node);
            assert(out@ =~= old(out)@ + node_handles(*n));
        },
        Node::Component(c) => {
            out.push(c.opening.node);
            proof {
                assert(c.children@.skip(0) =~= c.children@);
            }
            push_handles_from(&c.children, 0, out);
            out.push(c.closing.node);
            assert(out@ =~= old(out)@ + node_handles(*n));
        },
        Node::Fragment(ns) => {
            proof {
                assert(ns@.skip(0) =~= ns@);
            }
            push_handles_from(ns, 0, out);
            assert(out@ =~= old(out)@ + node_handles(*n));
        },
    }
}

} // verus!
