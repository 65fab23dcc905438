use html_editor::Editable;
use html_editor::Element;
use html_editor::Error;
use html_editor::Node;
use html_editor::Selector;

fn el(name: &str, attrs: Vec<(&str, &str)>, children: Vec<Node>) -> Element {
    Element {
        name: name.to_string(),
        attrs: attrs
            .into_iter()
            .map(|(k, v)| (k.to_string(), v.to_string()))
            .collect(),
        children,
    }
}

fn elem(name: &str, attrs: Vec<(&str, &str)>, children: Vec<Node>) -> Node {
    Node::Element(el(name, attrs, children))
}

fn text(s: &str) -> Node {
    Node::Text(s.to_string())
}

fn nodes_equal(a: &Vec<Node>, b: &Vec<Node>) -> bool {
    html_editor::dom::nodes_eq(a, b)
}

/// The document the original tests parse: a doctype and an `html` element
/// holding a `head` (with a `meta` and a `title`) and a `body` (with one
/// paragraph), whitespace text nodes included.
fn document() -> Vec<Node> {
    vec![
        text("\n    "),
        Node::Doctype("html".to_string()),
        text("\n    "),
        elem(
            "html",
            vec![("lang", "en")],
            vec![
                text("\n    "),
                elem(
                    "head",
                    vec![],
                    vec![
                        text("\n        "),
                        elem("meta", vec![("charset", "UTF-8")], vec![]),
                        text("\n        "),
                        elem("title", vec![], vec![text("Document")]),
                        text("\n    "),
                    ],
                ),
                text("\n    "),
                elem(
                    "body",
                    vec![],
                    vec![text("\n        "), elem("p", vec![], vec![text("Hello")]), text("\n    ")],
                ),
                text("\n    "),
            ],
        ),
    ]
}

fn document_with_body(body: Node) -> Vec<Node> {
    vec![
        text("\n    "),
        Node::Doctype("html".to_string()),
        text("\n    "),
        elem(
            "html",
            vec![("lang", "en")],
            vec![
                text("\n    "),
                elem(
                    "head",
                    vec![],
                    vec![
                        text("\n        "),
                        elem("meta", vec![("charset", "UTF-8")], vec![]),
                        text("\n        "),
                        elem("title", vec![], vec![text("Document")]),
                        text("\n    "),
                    ],
                ),
                text("\n    "),
                body,
                text("\n    "),
            ],
        ),
    ]
}

#[test]
fn insert() {
    let body_selector = Selector::Tag("body".to_string());
    let script = elem(
        "script",
        vec![],
        vec![text(r#"console.log("Hello World")"#)],
    );
    let mut doc = document();
    doc.insert_to(&body_selector, script.deep_clone());

    let expected_body = elem(
        "body",
        vec![],
        vec![
            text("\n        "),
            elem("p", vec![], vec![text("Hello")]),
            text("\n    "),
            script,
        ],
    );
    let expected = document_with_body(expected_body);
    assert!(nodes_equal(&doc, &expected));
}

#[test]
fn remove() {
    let meta_selector = Selector::Tag("meta".to_string());
    let mut doc = document();
    doc.remove_by(&meta_selector);

    let expected = vec![
        text("\n    "),
        Node::Doctype("html".to_string()),
        text("\n    "),
        elem(
            "html",
            vec![("lang", "en")],
            vec![
                text("\n    "),
                elem(
                    "head",
                    vec![],
                    vec![
                        text("\n        "),
                        text("\n        "),
                        elem("title", vec![], vec![text("Document")]),
                        text("\n    "),
                    ],
                ),
                text("\n    "),
                elem(
                    "body",
                    vec![],
                    vec![text("\n        "), elem("p", vec![], vec![text("Hello")]), text("\n    ")],
                ),
                text("\n    "),
            ],
        ),
    ];
    assert!(nodes_equal(&doc, &expected));
}

#[test]
fn replace() {
    let p_selector = Selector::Tag("p".to_string());
    let mut doc = document();
    let res = doc.replace_with(&p_selector, |p: &Element| {
        let inner = match &p.children[0] {
            Node::Text(t) => t.clone(),
            _ => return Err(Error),
        };
        let new_text = format!("{} World!", inner);
        Ok(Node::Element(Element {
            name: "p".to_string(),
            attrs: vec![],
            children: vec![Node::Text(new_text)],
        }))
    });
    assert!(res.is_ok());

    let expected_body = elem(
        "body",
        vec![],
        vec![
            text("\n        "),
            elem("p", vec![], vec![text("Hello World!")]),
            text("\n    "),
        ],
    );
    let expected = document_with_body(expected_body);
    assert!(nodes_equal(&doc, &expected));
}
