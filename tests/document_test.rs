use sdformat_rs::{
    depth_after, parse_element_at, DocEvent, DocumentError, ElementData, ElementMap, SdfPlugin,
    XmlElement,
};

fn leaf(name: &str, text: &str) -> XmlElement {
    let mut e = XmlElement::new(name.to_string());
    e.data = ElementData::String(text.to_string());
    e
}

fn text(e: &XmlElement) -> &str {
    match &e.data {
        ElementData::String(s) => s,
        ElementData::Nested(_) => panic!("Expected text"),
    }
}

fn start(name: &str, attrs: &[(&str, &str)]) -> DocEvent {
    DocEvent::Start {
        name: name.to_string(),
        attributes: attrs.iter().map(|(k, v)| (k.to_string(), v.to_string())).collect(),
    }
}

#[test]
fn get_all_lists_pushes_of_a_name_in_order() {
    let mut m = ElementMap::new();
    m.push(leaf("a", "1"));
    m.push(leaf("b", "2"));
    m.push(leaf("a", "3"));
    m.push(leaf("c", "4"));
    m.push(leaf("a", "5"));
    let all_a: Vec<&str> = m.get_all("a").unwrap().into_iter().map(text).collect();
    assert_eq!(all_a, vec!["1", "3", "5"]);
    assert_eq!(m.get_all("b").unwrap().len(), 1);
    assert!(m.get_all("d").is_none());
    assert_eq!(text(m.get("a").unwrap()), "1");
    assert_eq!(text(m.get("c").unwrap()), "4");
    assert!(m.get("d").is_none());
    assert_eq!(m.len(), 5);
    let order: Vec<&str> = m.all().iter().map(text).collect();
    assert_eq!(order, vec!["1", "2", "3", "4", "5"]);
}

#[test]
fn empty_map_has_nothing() {
    let m = ElementMap::new();
    assert!(m.get("a").is_none());
    assert!(m.get_all("a").is_none());
    assert_eq!(m.len(), 0);
    assert!(m.all().is_empty());
}

#[test]
fn attribute_update_keeps_count_and_order() {
    let mut m = ElementMap::new();
    let mut first = leaf("box", "");
    first.set_attribute("name".to_string(), "one".to_string());
    m.push(first);
    m.push(leaf("sphere", ""));
    let mut second = leaf("box", "");
    second.set_attribute("name".to_string(), "two".to_string());
    m.push(second);
    m.set_attribute_each("box", "color".to_string(), "red".to_string());
    let boxes = m.get_all("box").unwrap();
    assert_eq!(boxes.len(), 2);
    assert_eq!(boxes[0].attribute("name"), Some(&"one".to_string()));
    assert_eq!(boxes[1].attribute("name"), Some(&"two".to_string()));
    assert_eq!(boxes[0].attribute("color"), Some(&"red".to_string()));
    assert_eq!(boxes[1].attribute("color"), Some(&"red".to_string()));
    assert_eq!(m.get("sphere").unwrap().attribute("color"), None);
    assert_eq!(m.get("box").unwrap().attribute("name"), Some(&"one".to_string()));
    assert_eq!(m.len(), 3);
}

#[test]
fn set_attribute_replaces_in_place() {
    let mut e = leaf("x", "");
    e.set_attribute("a".to_string(), "1".to_string());
    e.set_attribute("b".to_string(), "2".to_string());
    e.set_attribute("a".to_string(), "3".to_string());
    assert_eq!(e.attributes.len(), 2);
    assert_eq!(e.attributes[0], ("a".to_string(), "3".to_string()));
    assert_eq!(e.attribute("b"), Some(&"2".to_string()));
    assert_eq!(e.attribute("c"), None);
}

#[test]
fn set_first_data_on_missing_name() {
    let mut m = ElementMap::new();
    m.push(leaf("a", "1"));
    assert!(!m.set_first_data("b", ElementData::String("x".to_string())));
    assert_eq!(text(m.get("a").unwrap()), "1");
}

#[test]
fn plugin_round_trip_keeps_the_tree() {
    let evs = vec![
        start("plugin", &[("name", "hello"), ("filename", "world.so")]),
        start("box", &[("name", "boxy")]),
        start("size", &[]),
        DocEvent::Text("42".to_string()),
        DocEvent::End,
        DocEvent::End,
        DocEvent::End,
    ];
    let (p, next) = SdfPlugin::from_events(&evs).unwrap();
    assert_eq!(next, evs.len());
    let again = SdfPlugin::from_events(&p.to_events()).unwrap().0;
    assert_eq!(again.name, "hello");
    assert_eq!(again.filename, "world.so");
    assert_eq!(again.elements.len(), 1);
    let b = again.elements.get("box").unwrap();
    assert_eq!(b.attribute("name"), Some(&"boxy".to_string()));
    match &b.data {
        ElementData::Nested(m) => {
            assert_eq!(m.len(), 1);
            assert_eq!(text(m.get("size").unwrap()), "42");
        }
        _ => panic!("Expected nested element"),
    }
    assert!(again.elements.all() == p.elements.all());
    let mut other = again.elements.all()[0].clone();
    other.set_attribute("name".to_string(), "other".to_string());
    assert!(other != p.elements.all()[0]);
    let written = p.to_events();
    assert!(matches!(&written[0], DocEvent::Start { name, attributes }
        if name == "plugin" && attributes.len() == 2 && attributes[0].1 == "hello"));
}

#[test]
fn plugin_without_attributes_reads_empty_names() {
    let evs = vec![start("plugin", &[]), DocEvent::End];
    let (p, next) = SdfPlugin::from_events(&evs).unwrap();
    assert_eq!(p.name, "");
    assert_eq!(p.filename, "");
    assert_eq!(p.elements.len(), 0);
    assert_eq!(next, 2);
}

#[test]
fn empty_element_reads_as_empty_text() {
    let evs = vec![start("a", &[]), DocEvent::End];
    let (e, next) = parse_element_at(&evs, 0).unwrap();
    assert_eq!(text(&e), "");
    assert_eq!(next, 2);
}

#[test]
fn malformed_events_are_rejected() {
    let unclosed = vec![start("a", &[]), start("b", &[]), DocEvent::End];
    assert_eq!(parse_element_at(&unclosed, 0).err(), Some(DocumentError::UnexpectedEvent));
    let mixed = vec![start("a", &[]), DocEvent::Text("t".to_string()), start("b", &[])];
    assert_eq!(parse_element_at(&mixed, 0).err(), Some(DocumentError::UnexpectedEvent));
    let no_start = vec![DocEvent::End];
    assert_eq!(parse_element_at(&no_start, 0).err(), Some(DocumentError::UnexpectedEvent));
    let dup = vec![start("a", &[("k", "1"), ("k", "2")]), DocEvent::End];
    assert_eq!(parse_element_at(&dup, 0).err(), Some(DocumentError::UnexpectedEvent));
    assert!(SdfPlugin::from_events(&Vec::new()).is_err());
}

#[test]
fn deep_clone_copies_the_tree() {
    let mut inner = ElementMap::new();
    inner.push(leaf("size", "1 2 3"));
    let mut e = XmlElement::new("box".to_string());
    e.data = ElementData::Nested(inner);
    let c = e.deep_clone();
    match &c.data {
        ElementData::Nested(m) => assert_eq!(text(m.get("size").unwrap()), "1 2 3"),
        _ => panic!("Expected nested element"),
    }
}

#[test]
fn depth_follows_starts_and_ends() {
    assert_eq!(depth_after(0, &start("a", &[])), Some(1));
    assert_eq!(depth_after(2, &DocEvent::End), Some(1));
    assert_eq!(depth_after(0, &DocEvent::End), None);
    assert_eq!(depth_after(3, &DocEvent::Text("x".to_string())), Some(3));
    assert_eq!(depth_after(usize::MAX, &start("a", &[])), None);
}

#[test]
fn defaults_and_integer_data() {
    assert!(matches!(ElementData::default(), ElementData::String(ref s) if s.is_empty()));
    let e = XmlElement::default();
    assert_eq!(e.name, "");
    assert!(e.attributes.is_empty());
    assert_eq!(ElementMap::default().len(), 0);
    assert_eq!(leaf("size", "-42").data.as_i64(), Some(-42));
    assert_eq!(leaf("size", "4.2").data.as_i64(), None);
    assert_eq!(ElementData::Nested(ElementMap::new()).as_i64(), None);
    let c = leaf("size", "7").clone();
    assert_eq!(text(&c), "7");
    assert_eq!(SdfPlugin::default().elements.len(), 0);
}
