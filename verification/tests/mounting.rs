use leptos_dom::backend::Backend;
use leptos_dom::backend::HandleKind;
use leptos_dom::mount::mount_child;
use leptos_dom::mount::unmount_child;
use leptos_dom::mount::MountKind;
use leptos_dom::node::push_handles;
use leptos_dom::node::Component;
use leptos_dom::node::Element;
use leptos_dom::node::Node;
use leptos_dom::node::Text;

#[test]
fn mount_unmount_text_restores_parent() {
    let mut b = Backend::new();
    let root = Element::new(&mut b, "div");
    let rh = root.handle();
    let filler = Node::Text(Text::new(&mut b, "existing"));
    mount_child(&mut b, MountKind::Element(rh), &filler);
    let pre = b.child_handles(rh).clone();

    let n = Node::Text(Text::new(&mut b, "x"));
    mount_child(&mut b, MountKind::Element(rh), &n);
    assert_eq!(b.child_handles(rh).len(), pre.len() + 1);
    unmount_child(&mut b, rh, &n);
    assert_eq!(b.child_handles(rh), &pre);
}

#[test]
fn mount_unmount_component_restores_parent() {
    let mut b = Backend::new();
    let root = Element::new(&mut b, "div");
    let rh = root.handle();
    let pre = b.child_handles(rh).clone();

    let c = Component::new(&mut b, "Widget");
    let n = Node::Component(c);
    mount_child(&mut b, MountKind::Element(rh), &n);
    assert_eq!(b.child_handles(rh).len(), 2);
    unmount_child(&mut b, rh, &n);
    assert_eq!(b.child_handles(rh), &pre);
}

#[test]
fn fragment_mounts_members_in_order() {
    let mut b = Backend::new();
    let root = Element::new(&mut b, "div");
    let rh = root.handle();

    let a = Element::new(&mut b, "span");
    let ah = a.handle();
    let t = Text::new(&mut b, "middle");
    let th = t.handle();
    let c = Component::new(&mut b, "Tail");
    let c_open = c.opening().handle();
    let c_close = c.closing().handle();

    let frag = Node::Fragment(vec![Node::Element(a), Node::Text(t), Node::Component(c)]);
    mount_child(&mut b, MountKind::Element(rh), &frag);

    // Members appear in declaration order, whatever each member's own
    // handle count: one for the element, one for the text, two markers
    // for the component.
    assert_eq!(b.child_handles(rh), &vec![ah, th, c_open, c_close]);
}

#[test]
fn component_markers_delimit_children() {
    let mut b = Backend::new();
    let root = Element::new(&mut b, "main");
    let rh = root.handle();

    let c = Component::new(&mut b, "List");
    let open = c.opening().handle();
    let close = c.closing().handle();
    let mut cnode = Node::Component(c);
    mount_child(&mut b, MountKind::Element(rh), &cnode);

    let t1 = Node::Text(Text::new(&mut b, "one"));
    let t1h = match &t1 {
        Node::Text(t) => t.handle(),
        _ => unreachable!(),
    };
    let t2 = Node::Text(Text::new(&mut b, "two"));
    let t2h = match &t2 {
        Node::Text(t) => t.handle(),
        _ => unreachable!(),
    };
    if let Node::Component(c) = &mut cnode {
        c.push_child(&mut b, rh, t1);
        c.push_child(&mut b, rh, t2);
    }

    let kids = b.child_handles(rh).clone();
    assert_eq!(kids, vec![open, t1h, t2h, close]);
    let open_pos = kids.iter().position(|&h| h == open).unwrap();
    let close_pos = kids.iter().position(|&h| h == close).unwrap();
    assert!(open_pos < close_pos);
    assert_eq!(&kids[open_pos + 1..close_pos], &[t1h, t2h]);
}

#[test]
fn dynamic_child_replacement_swaps_text() {
    let mut b = Backend::new();
    let root = Element::new(&mut b, "div");
    let rh = root.handle();

    let c = Component::new(&mut b, "Dyn");
    let open = c.opening().handle();
    let close = c.closing().handle();
    let mut cnode = Node::Component(c);
    mount_child(&mut b, MountKind::Element(rh), &cnode);

    let first = Node::Text(Text::new(&mut b, "a"));
    if let Node::Component(c) = &mut cnode {
        c.push_child(&mut b, rh, first);
    }

    let second = Node::Text(Text::new(&mut b, "b"));
    let bh = match &second {
        Node::Text(t) => t.handle(),
        _ => unreachable!(),
    };
    if let Node::Component(c) = &mut cnode {
        c.replace_children(&mut b, rh, second);
    }

    // Exactly one text handle, with content "b", lies between the
    // surrounding anchors; nothing with content "a" remains there.
    let kids = b.child_handles(rh).clone();
    assert_eq!(kids, vec![open, bh, close]);
    assert_eq!(b.kind(bh), HandleKind::Text);
    assert_eq!(b.label(bh).as_str(), "b");
    for &h in &kids {
        assert_ne!(b.label(h).as_str(), "a");
    }
}

#[test]
fn component_mounts_inside_live_component() {
    let mut b = Backend::new();
    let root = Element::new(&mut b, "div");
    let rh = root.handle();

    let outer = Component::new(&mut b, "Outer");
    let o_open = outer.opening().handle();
    let o_close = outer.closing().handle();
    let outer_node = Node::Component(outer);
    mount_child(&mut b, MountKind::Element(rh), &outer_node);

    let foo = Component::new(&mut b, "Foo");
    let f_open = foo.opening().handle();
    let f_close = foo.closing().handle();
    assert_eq!(foo.opening().content().as_str(), "<Foo>");
    assert_eq!(foo.closing().content().as_str(), "</Foo>");

    let mut foo_node = Node::Component(foo);
    if let Node::Component(outer) = &outer_node {
        mount_child(&mut b, MountKind::Component(outer.closing()), &foo_node);
    }
    let greeting = Node::Text(Text::new(&mut b, "hi"));
    let gh = match &greeting {
        Node::Text(t) => t.handle(),
        _ => unreachable!(),
    };
    if let Node::Component(foo) = &mut foo_node {
        foo.push_child(&mut b, rh, greeting);
    }

    // In order: outer opening, <Foo>, Foo's mounted children, </Foo>,
    // all immediately before the outer closing marker.
    assert_eq!(b.child_handles(rh), &vec![o_open, f_open, gh, f_close, o_close]);
    assert_eq!(b.kind(f_open), HandleKind::Comment);
    assert_eq!(b.kind(f_close), HandleKind::Comment);
    assert_eq!(b.label(f_open).as_str(), "<Foo>");
    assert_eq!(b.label(f_close).as_str(), "</Foo>");
}

#[test]
fn push_handles_resolves_in_document_order() {
    let mut b = Backend::new();
    let root = Element::new(&mut b, "div");
    let rh = root.handle();
    let c = Component::new(&mut b, "Box");
    let open = c.opening().handle();
    let close = c.closing().handle();
    let mut cnode = Node::Component(c);
    mount_child(&mut b, MountKind::Element(rh), &cnode);
    let t = Node::Text(Text::new(&mut b, "inside"));
    let th = match &t {
        Node::Text(t) => t.handle(),
        _ => unreachable!(),
    };
    if let Node::Component(c) = &mut cnode {
        c.push_child(&mut b, rh, t);
    }

    let mut out: Vec<usize> = Vec::new();
    push_handles(&cnode, &mut out);
    assert_eq!(out, vec![open, th, close]);
}

#[test]
fn construction_is_eager_but_never_mounts() {
    let mut b = Backend::new();
    assert_eq!(b.handle_count(), 0);
    let e = Element::new(&mut b, "p");
    assert_eq!(b.handle_count(), 1);
    let t = Text::new(&mut b, "words");
    assert_eq!(b.handle_count(), 2);
    let c = Component::new(&mut b, "Late");
    assert_eq!(b.handle_count(), 4);
    // All four handles exist but none is attached anywhere.
    assert_eq!(b.parent(e.handle()), None);
    assert_eq!(b.parent(t.handle()), None);
    assert_eq!(b.parent(c.opening().handle()), None);
    assert_eq!(b.parent(c.closing().handle()), None);
    assert_eq!(b.kind(e.handle()), HandleKind::Element);
    assert_eq!(b.kind(t.handle()), HandleKind::Text);
    assert_eq!(b.label(e.handle()).as_str(), "p");
    assert_eq!(b.label(t.handle()).as_str(), "words");
}

#[test]
fn empty_fragment_mounts_and_unmounts_as_nothing() {
    let mut b = Backend::new();
    let root = Element::new(&mut b, "div");
    let rh = root.handle();
    let t = Node::Text(Text::new(&mut b, "only"));
    mount_child(&mut b, MountKind::Element(rh), &t);
    let pre = b.child_handles(rh).clone();

    let empty = Node::Fragment(Vec::new());
    mount_child(&mut b, MountKind::Element(rh), &empty);
    assert_eq!(b.child_handles(rh), &pre);
    unmount_child(&mut b, rh, &empty);
    assert_eq!(b.child_handles(rh), &pre);
}
