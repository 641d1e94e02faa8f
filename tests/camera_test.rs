use sdformat_rs::{
    fixed_fields, parse_element_at, DocEvent, ElementData, SdfGeometry, SdfPlugin, SdfPose,
    XmlElement,
};
use yaserde::__xml::reader::XmlEvent;

/// The events of the first element of `text`, as a streaming reader gives them.
fn events(text: &str) -> Vec<DocEvent> {
    let mut reader = yaserde::de::Deserializer::new_from_reader(text.as_bytes());
    let mut out = Vec::new();
    let mut depth = 0usize;
    loop {
        match reader.next_event().unwrap() {
            XmlEvent::StartElement { name, attributes, .. } => {
                let attributes = attributes
                    .into_iter()
                    .map(|a| (a.name.local_name, a.value))
                    .collect();
                out.push(DocEvent::Start { name: name.local_name, attributes });
                depth += 1;
            }
            XmlEvent::Characters(t) => out.push(DocEvent::Text(t)),
            XmlEvent::EndElement { .. } => {
                out.push(DocEvent::End);
                depth -= 1;
                if depth == 0 {
                    return out;
                }
            }
            XmlEvent::EndDocument => return out,
            _ => {}
        }
    }
}

fn element(text: &str) -> XmlElement {
    parse_element_at(&events(text), 0).unwrap().0
}

fn text_of(e: &XmlElement) -> String {
    match &e.data {
        ElementData::String(s) => s.clone(),
        ElementData::Nested(_) => panic!("Expected text"),
    }
}

fn plugin(text: &str) -> SdfPlugin {
    SdfPlugin::from_events(&events(text)).unwrap().0
}

#[test]
fn test_pose_fragment() {
    let test_syntax = "<pose>1 0 0 0 0 0</pose>";
    let fr = parse_element_at(&events(test_syntax), 0);
    assert!(matches!(fr, Ok(_)));

    if let Ok((pose_elem, _)) = fr {
        let pose = SdfPose { data: text_of(&pose_elem), relative_to: None, degrees: None };
        let pose = pose.pose_text();
        assert!(matches!(pose, Ok(_)));
        let translation: Vec<f64> = pose
            .unwrap()
            .translation
            .iter()
            .map(|t| t.parse::<f64>().unwrap())
            .collect();
        assert_eq!(translation, vec![1.0, 0.0, 0.0]);
    }
}

#[test]
fn test_box_fragment() {
    let test_syntax = "<box><size>0 0 1</size></box>";
    let fr = parse_element_at(&events(test_syntax), 0);
    assert!(matches!(fr, Ok(_)));

    if let Ok((box_shape, _)) = fr {
        let size = match &box_shape.data {
            ElementData::Nested(m) => text_of(m.get("size").unwrap()),
            ElementData::String(_) => panic!("Expected nested element"),
        };
        let v: Vec<f64> = fixed_fields(&size, 3)
            .unwrap()
            .iter()
            .map(|t| t.parse::<f64>().unwrap())
            .collect();
        let d = [v[0] - 0.0, v[1] - 0.0, v[2] - 1.0];
        assert!((d[0] * d[0] + d[1] * d[1] + d[2] * d[2]).sqrt().abs() < 0.000001);
    }
}

#[test]
fn test_geometry_enum() {
    let test_syntax = "<geometry><box><size>0 0 1</size></box></geometry>";
    let fr = parse_element_at(&events(test_syntax), 0);
    assert!(matches!(fr, Ok(_)));
    assert!(matches!(SdfGeometry::from_element(&fr.unwrap().0), SdfGeometry::Box(_)));
}

#[test]
fn test_plugin() {
    let test_plugin_content = |fr: &SdfPlugin| {
        assert_eq!(fr.name, "hello");
        assert_eq!(fr.filename, "world.so");
        assert_eq!(fr.elements.all().len(), 1);
        let box_elem = fr.elements.all().iter().next().unwrap();
        assert_eq!(&*box_elem.name, "box");
        assert_eq!(box_elem.attributes.len(), 1);
        let (attr_name, attr_value) = box_elem.attributes.iter().next().unwrap();
        assert_eq!((attr_name, attr_value), (&"name".into(), &"boxy".into()));
        match &box_elem.data {
            ElementData::Nested(data) => {
                assert_eq!(data.all().len(), 1);
                let size_elem = data.all().iter().next().unwrap();
                assert_eq!(&*size_elem.name, "size");
                assert_eq!(size_elem.data.as_i64(), Some(42));
            }
            _ => panic!("Expected nested element"),
        }
    };
    let test_syntax = "<plugin name=\"hello\" filename=\"world.so\"><box name=\"boxy\"><size>42</size><!-- A comment --></box></plugin>";
    let fr = plugin(test_syntax);
    test_plugin_content(&fr);
    // Serialize back
    let to = fr.to_events();
    // Deserialize again and check that it's OK
    let fr = SdfPlugin::from_events(&to).unwrap().0;
    test_plugin_content(&fr);
    assert!(!to.is_empty());

    // Test accessing and mutating API
    let test_syntax = "<plugin name=\"hello\" filename=\"world.so\"><size>42</size></plugin>";
    let mut plugin_doc = plugin(test_syntax);
    let size = plugin_doc.elements.get("size").unwrap();
    assert_eq!(text_of(size), "42");
    assert!(plugin_doc
        .elements
        .set_first_data("size", ElementData::String("hello".to_string())));

    let size = plugin_doc.elements.get("size").unwrap();
    assert_eq!(text_of(size), "hello");
    // test for_each and for_each_mut
    let test_syntax = "<plugin name=\"hello\" filename=\"world.so\"><box name=\"boxy\"></box><box name=\"boxy\"></box></plugin>";
    let mut plugin_doc = plugin(test_syntax);
    for elem in plugin_doc.elements.get_all("box").unwrap() {
        assert_eq!(elem.attributes.iter().next().map(|a| &a.1), Some(&"boxy".to_string()));
    }
    plugin_doc
        .elements
        .set_attribute_each("box", "hello".to_string(), "world".to_string());
    for elem in plugin_doc.elements.get_all("box").unwrap() {
        assert_eq!(elem.attribute("hello"), Some(&"world".to_string()));
    }
}
