use leptos_dom::backend::Backend;
use leptos_dom::backend::HandleKind;
use leptos_dom::convert::IntoNode;
use leptos_dom::node::is_void_name;
use leptos_dom::node::Component;
use leptos_dom::node::Element;
use leptos_dom::node::Node;
use leptos_dom::node::Text;

#[test]
fn unit_and_none_convert_to_matching_placeholders() {
    let mut b = Backend::new();
    let n1 = ().into_node(&mut b);
    let n2 = None::<Node>.into_node(&mut b);
    let (h1, h2) = match (&n1, &n2) {
        (Node::Text(t1), Node::Text(t2)) => (t1.handle(), t2.handle()),
        _ => panic!("placeholders must be text nodes"),
    };
    // Indistinguishable in everything but handle identity.
    assert_eq!(b.kind(h1), HandleKind::Text);
    assert_eq!(b.kind(h2), HandleKind::Text);
    assert_eq!(b.label(h1).as_str(), "");
    assert_eq!(b.label(h2).as_str(), "");
    assert_eq!(b.label(h1), b.label(h2));
    assert_eq!(b.parent(h1), None);
    assert_eq!(b.parent(h2), None);
}

#[test]
fn some_converts_the_inner_value() {
    let mut b = Backend::new();
    let t = Text::new(&mut b, "inner");
    let th = t.handle();
    let n = Some(t).into_node(&mut b);
    match n {
        Node::Text(t) => {
            assert_eq!(t.handle(), th);
            assert_eq!(t.content().as_str(), "inner");
        },
        _ => panic!("Some(text) must convert to the text itself"),
    }
}

#[test]
fn node_converts_to_itself() {
    let mut b = Backend::new();
    let t = Text::new(&mut b, "same");
    let th = t.handle();
    let before = b.handle_count();
    let n = Node::Text(t).into_node(&mut b);
    assert_eq!(b.handle_count(), before);
    match n {
        Node::Text(t) => assert_eq!(t.handle(), th),
        _ => panic!("a node converts to itself"),
    }
}

#[test]
fn sequence_converts_to_fragment() {
    let mut b = Backend::new();
    let t1 = Node::Text(Text::new(&mut b, "1"));
    let t2 = Node::Text(Text::new(&mut b, "2"));
    let before = b.handle_count();
    let n = vec![t1, t2].into_node(&mut b);
    assert_eq!(b.handle_count(), before);
    match n {
        Node::Fragment(members) => assert_eq!(members.len(), 2),
        _ => panic!("a sequence converts to a fragment"),
    }
}

#[test]
fn element_and_component_convert_to_their_variants() {
    let mut b = Backend::new();
    let e = Element::new(&mut b, "div");
    let eh = e.handle();
    match e.into_node(&mut b) {
        Node::Element(e) => assert_eq!(e.handle(), eh),
        _ => panic!("an element converts to the element variant"),
    }
    let c = Component::new(&mut b, "Card");
    let oh = c.opening().handle();
    match c.into_node(&mut b) {
        Node::Component(c) => assert_eq!(c.opening().handle(), oh),
        _ => panic!("a component converts to the component variant"),
    }
}

#[test]
fn void_name_table_is_exact() {
    for name in [
        "area", "base", "br", "col", "embed", "hr", "img", "input", "link", "meta", "param",
        "source", "track", "wbr",
    ] {
        assert!(is_void_name(name), "{name} is a void element name");
    }
    for name in ["div", "span", "p", "a", "script", "BR", ""] {
        assert!(!is_void_name(name), "{name} is not a void element name");
    }
}

#[test]
fn void_element_has_no_children() {
    let mut b = Backend::new();
    let br = Element::new(&mut b, "br");
    assert!(br.is_void());
    assert_eq!(br.children_len(), 0);

    let mut div = Element::new(&mut b, "div");
    assert!(!div.is_void());
    let t = Node::Text(Text::new(&mut b, "kid"));
    div.push_child(&mut b, t);
    assert_eq!(div.children_len(), 1);
    assert_eq!(b.child_handles(div.handle()).len(), 1);
}

#[test]
fn component_markers_carry_name_annotations() {
    let mut b = Backend::new();
    let c = Component::new(&mut b, "Header");
    assert_eq!(c.opening().content().as_str(), "<Header>");
    assert_eq!(c.closing().content().as_str(), "</Header>");
    assert_ne!(c.opening().handle(), c.closing().handle());
    assert_eq!(b.kind(c.opening().handle()), HandleKind::Comment);
    assert_eq!(b.label(c.opening().handle()).as_str(), "<Header>");
    assert_eq!(b.label(c.closing().handle()).as_str(), "</Header>");
}
