use ayarify::restructure::{
    ayarify_marked_tree, ayarify_node, ayarify_tree, restructure_document,
};
use ayarify::tree::{get_header_level, has_attribute, text_content, Attr, HtmlNode};

fn elem(tag: &str, attrs: Vec<(&str, &str)>, children: Vec<HtmlNode>) -> HtmlNode {
    HtmlNode::Element {
        tag: tag.as_bytes().to_vec(),
        attrs: attrs
            .into_iter()
            .map(|(n, v)| Attr { name: n.as_bytes().to_vec(), value: v.as_bytes().to_vec() })
            .collect(),
        children,
    }
}

fn text(s: &str) -> HtmlNode {
    HtmlNode::Text { text: s.as_bytes().to_vec() }
}

fn heading(tag: &str, s: &str) -> HtmlNode {
    elem(tag, vec![], vec![text(s)])
}

fn flatten_text(node: &HtmlNode, into: &mut Vec<u8>) {
    match node {
        HtmlNode::Element { children, .. } => {
            for c in children {
                flatten_text(c, into);
            }
        }
        HtmlNode::Text { text } => into.extend_from_slice(text),
        HtmlNode::Opaque { .. } => {}
    }
}

#[test]
fn test_get_header_level() {
    assert_eq!(get_header_level(&heading("h1", "a")), Some(1));
    assert_eq!(get_header_level(&heading("h6", "a")), Some(6));
    assert_eq!(get_header_level(&heading("h7", "a")), None);
    assert_eq!(get_header_level(&elem("div", vec![], vec![])), None);
    assert_eq!(get_header_level(&text("h1")), None);
}

#[test]
fn test_has_attribute_is_case_insensitive() {
    let node = elem("div", vec![("DATA-Ayarify", "")], vec![]);
    assert!(has_attribute(&node, &b"data-ayarify".to_vec()));
    assert!(!has_attribute(&node, &b"data-other".to_vec()));
    assert!(!has_attribute(&text("x"), &b"data-ayarify".to_vec()));
}

#[test]
fn test_ayarify_node_wraps_single_heading() {
    let root = elem("body", vec![], vec![heading("h1", "title"), text("tail")]);
    let out = ayarify_node(root);
    let expected = elem(
        "body",
        vec![],
        vec![elem("div", vec![], vec![heading("h1", "title"), text("tail")])],
    );
    assert_eq!(out, expected);
}

#[test]
fn test_no_headings_leave_group_unchanged() {
    let root = elem("body", vec![], vec![text("a"), elem("p", vec![], vec![text("b")])]);
    let out = ayarify_tree(root);
    let expected = elem("body", vec![], vec![text("a"), elem("p", vec![], vec![text("b")])]);
    assert_eq!(out, expected);
}

#[test]
fn test_wrapper_takes_over_heading_attributes() {
    let root = elem(
        "body",
        vec![],
        vec![elem("h2", vec![("class", "cls")], vec![text("t")]), text("rest")],
    );
    let out = ayarify_tree(root);
    let expected = elem(
        "body",
        vec![],
        vec![elem(
            "div",
            vec![("class", "cls")],
            vec![elem("h2", vec![], vec![text("t")]), text("rest")],
        )],
    );
    assert_eq!(out, expected);
}

#[test]
fn test_marked_restructure_scenario() {
    let marked = elem(
        "div",
        vec![("data-ayarify", "")],
        vec![
            elem("h2", vec![("class", "cls")], vec![text("header2")]),
            elem("p", vec![], vec![text("para2")]),
            heading("h4", "header3"),
            elem("p", vec![], vec![text("para3")]),
            heading("h3", "header4"),
            elem("p", vec![], vec![text("para4")]),
            heading("h2", "header5"),
            elem("p", vec![], vec![text("para5")]),
        ],
    );
    let out = ayarify_marked_tree(marked, &b"data-ayarify".to_vec());

    let expected = elem(
        "div",
        vec![("data-ayarify", "")],
        vec![
            elem(
                "div",
                vec![("class", "cls")],
                vec![
                    elem("h2", vec![], vec![text("header2")]),
                    elem("p", vec![], vec![text("para2")]),
                    elem(
                        "div",
                        vec![],
                        vec![heading("h4", "header3"), elem("p", vec![], vec![text("para3")])],
                    ),
                    elem(
                        "div",
                        vec![],
                        vec![heading("h3", "header4"), elem("p", vec![], vec![text("para4")])],
                    ),
                ],
            ),
            elem(
                "div",
                vec![],
                vec![heading("h2", "header5"), elem("p", vec![], vec![text("para5")])],
            ),
        ],
    );
    assert_eq!(out, expected);
}

#[test]
fn test_marker_gating_leaves_outside_headings_alone() {
    let root = elem(
        "body",
        vec![],
        vec![
            heading("h2", "outside"),
            elem("div", vec![("data-ayarify", "")], vec![heading("h2", "inside")]),
        ],
    );
    let out = ayarify_marked_tree(root, &b"data-ayarify".to_vec());
    let expected = elem(
        "body",
        vec![],
        vec![
            heading("h2", "outside"),
            elem(
                "div",
                vec![("data-ayarify", "")],
                vec![elem("div", vec![], vec![heading("h2", "inside")])],
            ),
        ],
    );
    assert_eq!(out, expected);
}

#[test]
fn test_absent_marker_changes_nothing() {
    let root = elem("body", vec![], vec![heading("h1", "only")]);
    let out = restructure_document(root, &Some(b"data-ayarify".to_vec()));
    let expected = elem("body", vec![], vec![heading("h1", "only")]);
    assert_eq!(out, expected);
}

#[test]
fn test_restructure_document_without_marker_restructures_all() {
    let root = elem("body", vec![], vec![heading("h1", "a"), text("b")]);
    let out = restructure_document(root, &None);
    let expected = elem(
        "body",
        vec![],
        vec![elem("div", vec![], vec![heading("h1", "a"), text("b")])],
    );
    assert_eq!(out, expected);
}

#[test]
fn test_nested_groups_resolve_innermost_first() {
    let inner = elem("section", vec![], vec![heading("h3", "deep"), text("x")]);
    let root = elem("body", vec![], vec![heading("h1", "top"), inner]);
    let out = ayarify_tree(root);
    let expected = elem(
        "body",
        vec![],
        vec![elem(
            "div",
            vec![],
            vec![
                heading("h1", "top"),
                elem(
                    "section",
                    vec![],
                    vec![elem("div", vec![], vec![heading("h3", "deep"), text("x")])],
                ),
            ],
        )],
    );
    assert_eq!(out, expected);
}

#[test]
fn test_restructuring_preserves_flattened_text() {
    let root = elem(
        "body",
        vec![],
        vec![
            heading("h2", "header2"),
            elem("p", vec![], vec![text("para2")]),
            heading("h4", "header3"),
            elem("p", vec![], vec![text("para3")]),
            heading("h3", "header4"),
            HtmlNode::Opaque { key: 7 },
            heading("h2", "header5"),
            text("tail"),
        ],
    );
    let mut before = Vec::new();
    flatten_text(&root, &mut before);
    assert_eq!(text_content(&root), before);
    let out = ayarify_tree(root);
    let mut after = Vec::new();
    flatten_text(&out, &mut after);
    assert_eq!(text_content(&out), after);
    assert_eq!(before, after);
    assert_eq!(before, b"header2para2header3para3header4header5tail".to_vec());
}
