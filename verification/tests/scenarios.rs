use html_editor::Editable;
use html_editor::Element;
use html_editor::Error;
use html_editor::ErrorDetail;
use html_editor::Node;
use html_editor::Selector;
use html_editor::dom::nodes_eq;

fn mk(name: &str, attrs: Vec<(&str, &str)>, children: Vec<Node>) -> Element {
    Element {
        name: name.to_string(),
        attrs: attrs
            .into_iter()
            .map(|(k, v)| (k.to_string(), v.to_string()))
            .collect(),
        children,
    }
}

fn node(name: &str, attrs: Vec<(&str, &str)>, children: Vec<Node>) -> Node {
    Node::Element(mk(name, attrs, children))
}

#[test]
fn remove_by_class_scenario() {
    // <div><div class="ad"></div><div class="keep"></div></div>
    let mut doc = vec![node(
        "div",
        vec![],
        vec![node("div", vec![("class", "ad")], vec![]), node("div", vec![("class", "keep")], vec![])],
    )];
    let ad = Selector::Attr("class".to_string(), "ad".to_string());
    doc.remove_by(&ad);
    let expected = vec![node("div", vec![], vec![node("div", vec![("class", "keep")], vec![])])];
    assert!(nodes_eq(&doc, &expected));
}

#[test]
fn insert_to_body_scenario() {
    // <body><p>Hello</p></body> + Text("!") => <body><p>Hello</p>!</body>
    let mut doc = vec![node(
        "body",
        vec![],
        vec![node("p", vec![], vec![Node::Text("Hello".to_string())])],
    )];
    let body = Selector::Tag("body".to_string());
    doc.insert_to(&body, Node::Text("!".to_string()));
    let expected = vec![node(
        "body",
        vec![],
        vec![
            node("p", vec![], vec![Node::Text("Hello".to_string())]),
            Node::Text("!".to_string()),
        ],
    )];
    assert!(nodes_eq(&doc, &expected));
}

#[test]
fn trim_blank_and_comment_scenario() {
    // Three whitespace-only text nodes and one comment inside an
    // otherwise-empty element: trim leaves the element with no children.
    let mut doc = vec![node(
        "div",
        vec![],
        vec![
            Node::Text("   ".to_string()),
            Node::Comment("noise".to_string()),
            Node::Text("\n\t".to_string()),
            Node::Text("\r\n  ".to_string()),
        ],
    )];
    doc.trim();
    let expected = vec![node("div", vec![], vec![])];
    assert!(nodes_eq(&doc, &expected));
}

#[test]
fn trim_keeps_doctype_and_elements() {
    let mut doc = vec![
        Node::Doctype("html".to_string()),
        Node::Comment("gone".to_string()),
        Node::Text("kept".to_string()),
        Node::Text("".to_string()),
        node("div", vec![], vec![]),
    ];
    doc.trim();
    let expected = vec![
        Node::Doctype("html".to_string()),
        Node::Text("kept".to_string()),
        node("div", vec![], vec![]),
    ];
    assert!(nodes_eq(&doc, &expected));
}

#[test]
fn trim_twice_is_trim_once() {
    let mut once = vec![node(
        "div",
        vec![],
        vec![
            Node::Comment("x".to_string()),
            node("p", vec![], vec![Node::Text(" ".to_string()), Node::Text("hi".to_string())]),
            Node::Text("  \n".to_string()),
        ],
    )];
    once.trim();
    let mut twice = once.iter().map(|n| n.deep_clone()).collect::<Vec<Node>>();
    twice.trim();
    assert!(nodes_eq(&once, &twice));
}

#[test]
fn insert_reaches_nested_matches_first() {
    // An element matching at two depths receives the insertion at both,
    // the nested occurrence before the outer one.
    let mut doc = vec![node("div", vec![], vec![node("div", vec![], vec![])])];
    let sel = Selector::Tag("div".to_string());
    doc.insert_to(&sel, Node::Text("x".to_string()));
    let expected = vec![node(
        "div",
        vec![],
        vec![
            node("div", vec![], vec![Node::Text("x".to_string())]),
            Node::Text("x".to_string()),
        ],
    )];
    assert!(nodes_eq(&doc, &expected));
}

#[test]
fn insert_copies_are_independent() {
    let mut doc = vec![node("a", vec![], vec![]), node("a", vec![], vec![])];
    let sel = Selector::Tag("a".to_string());
    doc.insert_to(&sel, node("b", vec![], vec![]));
    // Mutating the copy in the first match must not touch the second.
    if let Node::Element(first) = &mut doc[0] {
        if let Node::Element(b) = &mut first.children[0] {
            b.attrs.push(("k".to_string(), "v".to_string()));
        }
    }
    let expected_second = node("a", vec![], vec![node("b", vec![], vec![])]);
    assert!(doc[1].deep_eq(&expected_second));
}

#[test]
fn remove_drops_whole_subtree() {
    let mut doc = vec![node(
        "section",
        vec![("class", "ad")],
        vec![node("div", vec![], vec![Node::Text("inner".to_string())])],
    )];
    let sel = Selector::Attr("class".to_string(), "ad".to_string());
    doc.remove_by(&sel);
    let expected: Vec<Node> = vec![];
    assert!(nodes_eq(&doc, &expected));
}

#[test]
fn remove_never_touches_non_elements() {
    let mut doc = vec![
        Node::Text("text".to_string()),
        Node::Comment("comment".to_string()),
        Node::Doctype("html".to_string()),
    ];
    let sel = Selector::Tag("text".to_string());
    doc.remove_by(&sel);
    let expected = vec![
        Node::Text("text".to_string()),
        Node::Comment("comment".to_string()),
        Node::Doctype("html".to_string()),
    ];
    assert!(nodes_eq(&doc, &expected));
}

#[test]
fn replace_failure_keeps_earlier_replacements() {
    // Two matches at one level: the first transform succeeds, the second
    // fails; the first stays replaced, the failing node stays unchanged.
    let mut doc = vec![
        node("p", vec![("id", "one")], vec![]),
        node("p", vec![("id", "two")], vec![]),
    ];
    let sel = Selector::Tag("p".to_string());
    let res = doc.replace_with(&sel, |p: &Element| {
        if p.attrs[0].1 == "one" {
            Ok(Node::Comment("done".to_string()))
        } else {
            Err(Error)
        }
    });
    assert!(res.is_err());
    let expected = vec![
        Node::Comment("done".to_string()),
        node("p", vec![("id", "two")], vec![]),
    ];
    assert!(nodes_eq(&doc, &expected));
}

#[test]
fn replace_swallows_nested_failure() {
    // The failing match sits inside a non-matching element: the nested
    // failure is discarded and the call reports success.
    let mut doc = vec![node("div", vec![], vec![node("p", vec![], vec![])])];
    let sel = Selector::Tag("p".to_string());
    let res = doc.replace_with(&sel, |_p: &Element| Err(Error));
    assert!(res.is_ok());
    let expected = vec![node("div", vec![], vec![node("p", vec![], vec![])])];
    assert!(nodes_eq(&doc, &expected));
}

#[test]
fn execute_for_visits_every_match() {
    // Add a class to all the input elements, at every depth.
    let mut doc = vec![node(
        "body",
        vec![],
        vec![
            node("input", vec![("type", "text")], vec![]),
            node("div", vec![], vec![node("input", vec![("type", "text")], vec![])]),
        ],
    )];
    let sel = Selector::Tag("input".to_string());
    doc.execute_for(&sel, |elem: &Element| {
        let mut out = elem.deep_clone();
        out.attrs.push(("class".to_string(), "input".to_string()));
        out
    });
    let expected = vec![node(
        "body",
        vec![],
        vec![
            node("input", vec![("type", "text"), ("class", "input")], vec![]),
            node(
                "div",
                vec![],
                vec![node("input", vec![("type", "text"), ("class", "input")], vec![])],
            ),
        ],
    )];
    assert!(nodes_eq(&doc, &expected));
}

#[test]
fn execute_for_on_element_visits_root() {
    let mut root = mk("input", vec![], vec![]);
    let sel = Selector::Tag("input".to_string());
    root.execute_for(&sel, |elem: &Element| {
        let mut out = elem.deep_clone();
        out.attrs.push(("seen".to_string(), "yes".to_string()));
        out
    });
    let expected = mk("input", vec![("seen", "yes")], vec![]);
    assert!(root.deep_eq(&expected));
}

#[test]
fn element_trim_and_insert() {
    let mut root = mk(
        "body",
        vec![],
        vec![Node::Comment("x".to_string()), node("p", vec![], vec![])],
    );
    root.trim();
    let sel = Selector::Tag("body".to_string());
    root.insert_to(&sel, Node::Text("!".to_string()));
    let expected = mk(
        "body",
        vec![],
        vec![node("p", vec![], vec![]), Node::Text("!".to_string())],
    );
    assert!(root.deep_eq(&expected));
}

#[test]
fn selector_matching_rules() {
    let e = mk("div", vec![("class", "ad"), ("id", "top")], vec![]);
    assert!(Selector::Tag("div".to_string()).matches(&e));
    assert!(!Selector::Tag("span".to_string()).matches(&e));
    assert!(Selector::Attr("class".to_string(), "ad".to_string()).matches(&e));
    assert!(Selector::Attr("id".to_string(), "top".to_string()).matches(&e));
    assert!(!Selector::Attr("class".to_string(), "keep".to_string()).matches(&e));
    assert!(Selector::Tag("div".to_string()).matches_shape(&e));
}

#[test]
fn deep_eq_distinguishes_trees() {
    let a = node("div", vec![], vec![Node::Text("x".to_string())]);
    let b = node("div", vec![], vec![Node::Text("y".to_string())]);
    assert!(!a.deep_eq(&b));
    assert!(a.deep_eq(&a.deep_clone()));
}

#[test]
fn trim_removes_unicode_whitespace() {
    // Vertical tab, no-break space and line separator are whitespace to
    // `str::trim`, so text nodes holding only them are blank.
    let mut doc = vec![node(
        "div",
        vec![],
        vec![
            Node::Text("\u{000B}".to_string()),
            Node::Text("\u{00A0}\u{00A0}".to_string()),
            Node::Text("\u{2028}\u{3000} ".to_string()),
            Node::Text("\u{00A0}a\u{00A0}".to_string()),
        ],
    )];
    doc.trim();
    let expected = vec![node("div", vec![], vec![Node::Text("\u{00A0}a\u{00A0}".to_string())])];
    assert!(nodes_eq(&doc, &expected));
}

#[test]
fn trim_agrees_with_str_trim() {
    // The removal decision must coincide with `str::trim().is_empty()`.
    let samples = ["", "  ", "\u{000B}", "\u{0085}\u{1680}", "x", " x ", "\u{00A0}y"];
    for s in samples {
        let mut doc = vec![Node::Text(s.to_string())];
        doc.trim();
        let kept = !s.trim().is_empty();
        assert_eq!(doc.len(), if kept { 1 } else { 0 });
    }
}

#[test]
fn execute_for_visitor_may_append_text() {
    // A visitor may grow the visited element's content, as long as it
    // adds no elements.
    let mut doc = vec![node("p", vec![], vec![Node::Text("a".to_string())])];
    let sel = Selector::Tag("p".to_string());
    doc.execute_for(&sel, |elem: &Element| {
        let mut out = elem.deep_clone();
        out.children.push(Node::Text("!".to_string()));
        out
    });
    let expected = vec![node(
        "p",
        vec![],
        vec![Node::Text("a".to_string()), Node::Text("!".to_string())],
    )];
    assert!(nodes_eq(&doc, &expected));
}

#[test]
fn element_remove_by_keeps_root() {
    // The root element itself is never removed, even when it matches.
    let mut root = mk("div", vec![], vec![node("div", vec![], vec![]), node("p", vec![], vec![])]);
    let sel = Selector::Tag("div".to_string());
    root.remove_by(&sel);
    let expected = mk("div", vec![], vec![node("p", vec![], vec![])]);
    assert!(root.deep_eq(&expected));
}

#[test]
fn element_replace_with_scans_children_only() {
    let mut root = mk("div", vec![], vec![node("p", vec![], vec![])]);
    let sel = Selector::Tag("p".to_string());
    let res = root.replace_with(&sel, |_p: &Element| Ok(Node::Text("gone".to_string())));
    assert!(res.is_ok());
    let expected = mk("div", vec![], vec![Node::Text("gone".to_string())]);
    assert!(root.deep_eq(&expected));
}

#[test]
fn trim_keeps_nested_real_text() {
    let mut doc = vec![node(
        "div",
        vec![],
        vec![node("p", vec![], vec![Node::Text("  a  ".to_string())])],
    )];
    doc.trim();
    let expected = vec![node(
        "div",
        vec![],
        vec![node("p", vec![], vec![Node::Text("  a  ".to_string())])],
    )];
    assert!(nodes_eq(&doc, &expected));
}

#[test]
fn deep_eq_sees_attribute_order() {
    let a = mk("div", vec![("a", "1"), ("b", "2")], vec![]);
    let b = mk("div", vec![("b", "2"), ("a", "1")], vec![]);
    assert!(!a.deep_eq(&b));
}

#[test]
fn error_values() {
    let e = Error;
    assert_eq!(e.message(), "Unexpected error in HTML Editor");
    let d = ErrorDetail::new(3, 7, "main.rs".to_string());
    assert_eq!(d.line(), 3);
    assert_eq!(d.column(), 7);
    assert_eq!(d.file().as_str(), "main.rs");
}
