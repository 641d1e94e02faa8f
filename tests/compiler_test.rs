use sdformat_rs::{
    compile, field_type_text, generate_types, parse_element_at, sanitize_field, shape_kind, storage_type,
    BaseType, Boxed, Cardinality, DocEvent, ElementData, ElementMap, FieldKind, SchemaElement,
    SchemaError, SdfGeometry, ShapeKind, StorageType, TypeDef, Wrapper, XmlElement,
};
use yaserde::__xml::reader::XmlEvent;

fn declaration(text: &str) -> XmlElement {
    let mut reader = yaserde::de::Deserializer::new_from_reader(text.as_bytes());
    let mut out = Vec::new();
    let mut depth = 0usize;
    loop {
        match reader.next_event().unwrap() {
            XmlEvent::StartElement { name, attributes, .. } => {
                let attributes = attributes
                    .into_iter()
                    .map(|a| (a.name.local_name, a.value))
                    .collect();
                out.push(DocEvent::Start { name: name.local_name, attributes });
                depth += 1;
            }
            XmlEvent::Characters(t) => out.push(DocEvent::Text(t)),
            XmlEvent::EndElement { .. } => {
                out.push(DocEvent::End);
                depth -= 1;
                if depth == 0 {
                    break;
                }
            }
            XmlEvent::EndDocument => break,
            _ => {}
        }
    }
    parse_element_at(&out, 0).unwrap().0
}

const MODEL: &str = r#"<element name="model" required="*">
  <description>A model</description>
  <attribute name="name" type="string" default="__default__" required="1">
    <description>Name of the model</description>
  </attribute>
  <element name="static" type="bool" default="false" required="0"/>
  <element name="pose" type="pose" required="0"/>
  <element name="link" required="*">
    <attribute name="name" type="string" required="1"/>
    <element name="mass" type="double" required="1"/>
    <element name="gravity" type="vector3" required="+"/>
  </element>
  <element name="model" ref="model" required="*"/>
  <include filename="frame.sdf" required="*"/>
</element>"#;

const FRAME: &str = r#"<element name="frame" required="*">
  <attribute name="name" type="string" required="1"/>
</element>"#;

fn model_files() -> Vec<SchemaElement> {
    vec![
        SchemaElement::from_schema_file(&declaration(MODEL), "model.sdf").unwrap(),
        SchemaElement::from_schema_file(&declaration(FRAME), "frame.sdf").unwrap(),
    ]
}

fn field<'a>(t: &'a TypeDef, tag: &str) -> &'a sdformat_rs::FieldDef {
    t.fields.iter().find(|f| f.tag == tag).unwrap()
}

fn named(b: &BaseType) -> &str {
    match b {
        BaseType::Named(n) => n,
        BaseType::Scalar(_) => panic!("Expected a named type"),
    }
}

#[test]
fn cardinality_markers_and_wrappers() {
    assert_eq!(Cardinality::from_marker("true"), Cardinality::ExactlyOne);
    assert_eq!(Cardinality::from_marker("1"), Cardinality::ExactlyOne);
    assert_eq!(Cardinality::from_marker("*"), Cardinality::Many);
    assert_eq!(Cardinality::from_marker("+"), Cardinality::Many);
    assert_eq!(Cardinality::from_marker("0"), Cardinality::Optional);
    assert_eq!(Cardinality::from_marker("-1"), Cardinality::Optional);
    assert_eq!(Cardinality::Optional.wrapper(), Wrapper::Nullable);
    assert_eq!(Cardinality::ExactlyOne.wrapper(), Wrapper::Bare);
    assert_eq!(Cardinality::Many.wrapper(), Wrapper::Sequence);
}

#[test]
fn storage_of_scalar_types() {
    assert_eq!(storage_type("double"), StorageType::Float);
    assert_eq!(storage_type("bool"), StorageType::Bool);
    assert_eq!(storage_type("vector3"), StorageType::Vector3d);
    assert_eq!(storage_type("pose"), StorageType::Text);
    assert_eq!(storage_type("unsigned int"), StorageType::Text);
}

#[test]
fn sanitized_field_names() {
    assert_eq!(sanitize_field("type"), "r#type");
    assert_eq!(sanitize_field("box"), "r#box");
    assert_eq!(sanitize_field("ignition:camera"), "ignition_camera");
    assert_eq!(sanitize_field("mass"), "mass");
}

#[test]
fn schema_model_from_declarations() {
    let m = &model_files()[0];
    assert!(m.top_level);
    assert_eq!(m.name, "model");
    assert_eq!(m.required, Cardinality::Many);
    assert_eq!(m.description, "A model");
    assert_eq!(m.attributes.len(), 1);
    assert_eq!(m.attributes[0].description, "Name of the model");
    assert_eq!(m.attributes[0].default, Some("__default__".to_string()));
    assert_eq!(m.children.len(), 4);
    assert_eq!(m.children[2].children.len(), 2);
    assert_eq!(m.children[2].source_file, "model.sdf");
    assert!(!m.children[2].top_level);
    assert_eq!(m.children[3].reference, Some("model".to_string()));
    assert_eq!(m.includes.len(), 1);
    assert_eq!(m.includes[0].filename, "frame.sdf");
    assert_eq!(m.includes[0].required, Cardinality::Many);
}

#[test]
fn include_without_target_is_an_error() {
    let bad = declaration(r#"<element name="x"><include required="1"/></element>"#);
    assert!(matches!(
        SchemaElement::from_schema_file(&bad, "x.sdf"),
        Err(SchemaError::MissingIncludeTarget)
    ));
}

#[test]
fn compiled_types_follow_the_schema() {
    let files = model_files();
    let types = compile(&files, &vec!["frame.sdf".to_string()]).unwrap();
    let names: Vec<&str> = types.iter().map(|t| t.name.as_str()).collect();
    assert_eq!(names, vec!["SdfModel", "SdfModelLink"]);
    let model = &types[0];
    assert_eq!(model.tag, "model");
    let kinds: Vec<FieldKind> = model.fields.iter().map(|f| f.kind).collect();
    assert_eq!(
        kinds,
        vec![
            FieldKind::Attribute,
            FieldKind::Child,
            FieldKind::Child,
            FieldKind::Child,
            FieldKind::Child,
            FieldKind::Child
        ]
    );
    let name = field(model, "name");
    assert!(matches!(name.base, BaseType::Scalar(StorageType::Text)));
    assert_eq!(name.wrapper, Wrapper::Bare);
    let stat = field(model, "static");
    assert_eq!(stat.field_name, "r#static");
    assert!(matches!(stat.base, BaseType::Scalar(StorageType::Bool)));
    assert_eq!(stat.wrapper, Wrapper::Nullable);
    let link = field(model, "link");
    assert_eq!(named(&link.base), "SdfModelLink");
    assert_eq!(link.wrapper, Wrapper::Sequence);
    let frame = field(model, "frame");
    assert_eq!(named(&frame.base), "SdfFrame");
    assert_eq!(frame.wrapper, Wrapper::Sequence);
    let link_type = &types[1];
    let mass = field(link_type, "mass");
    assert!(matches!(mass.base, BaseType::Scalar(StorageType::Float)));
    let gravity = field(link_type, "gravity");
    assert!(matches!(gravity.base, BaseType::Scalar(StorageType::Vector3d)));
    assert_eq!(gravity.wrapper, Wrapper::Sequence);
}

#[test]
fn self_reference_is_boxed_and_finite() {
    let files = model_files();
    let types = generate_types(&files[0], "", &files).unwrap();
    assert_eq!(types.len(), 2);
    let nested = field(&types[0], "model");
    assert_eq!(nested.wrapper, Wrapper::BoxedSequence);
    assert_eq!(named(&nested.base), "SdfModel");
}

#[test]
fn unknown_scalar_type_compiles_to_text() {
    let files = model_files();
    let types = generate_types(&files[0], "", &files).unwrap();
    let pose = field(&types[0], "pose");
    assert!(matches!(pose.base, BaseType::Scalar(StorageType::Text)));
}

#[test]
fn leaf_with_type_gets_a_text_field() {
    let d = declaration(r#"<element name="uri" type="string"><attribute name="scheme" type="string"/></element>"#);
    let files = vec![SchemaElement::from_schema_file(&d, "uri.sdf").unwrap()];
    let types = compile(&files, &Vec::new()).unwrap();
    let last = types[0].fields.last().unwrap();
    assert_eq!(last.kind, FieldKind::Text);
    assert_eq!(last.field_name, "data");
    assert_eq!(types[0].name, "SdfUri");
}

#[test]
fn unresolved_include_fails() {
    let files = vec![SchemaElement::from_schema_file(&declaration(MODEL), "model.sdf").unwrap()];
    match compile(&files, &Vec::new()) {
        Err(SchemaError::UnresolvedInclude(f)) => assert_eq!(f, "frame.sdf"),
        _ => panic!("Expected an unresolved include"),
    }
    assert_eq!(compile(&files, &vec!["model.sdf".to_string()]).unwrap().len(), 0);
}

#[test]
fn include_field_uses_snake_case_of_target() {
    let target = declaration(r#"<element name="frameSemantics"/>"#);
    let user = declaration(r#"<element name="world"><include filename="frame_semantics.sdf" required="0"/></element>"#);
    let files = vec![
        SchemaElement::from_schema_file(&user, "world.sdf").unwrap(),
        SchemaElement::from_schema_file(&target, "frame_semantics.sdf").unwrap(),
    ];
    let types = compile(&files, &Vec::new()).unwrap();
    let f = &types[0].fields[0];
    assert_eq!(f.tag, "frame_semantics");
    assert_eq!(named(&f.base), "SdfFrameSemantics");
    assert_eq!(f.wrapper, Wrapper::Nullable);
}

#[test]
fn geometry_dispatch_by_tag() {
    assert_eq!(shape_kind("sphere"), Some(ShapeKind::Sphere));
    assert_eq!(shape_kind("cube"), None);
    let g = declaration("<geometry><unknown/><cylinder><radius>1</radius></cylinder><box/></geometry>");
    let shape = SdfGeometry::from_element(&g);
    assert!(matches!(shape, SdfGeometry::Cylinder(_)));
    let back = shape.to_element();
    assert_eq!(back.name, "geometry");
    match &back.data {
        ElementData::Nested(m) => {
            assert_eq!(m.len(), 1);
            assert!(m.get("cylinder").is_some());
        }
        _ => panic!("Expected nested element"),
    }
    let empty = SdfGeometry::from_element(&declaration("<geometry/>"));
    assert!(matches!(empty, SdfGeometry::Empty));
    assert!(matches!(SdfGeometry::Empty.to_element().data, ElementData::String(ref s) if s.is_empty()));
    assert!(matches!(
        SdfGeometry::from_element(&XmlElement {
            attributes: Vec::new(),
            name: "geometry".to_string(),
            data: ElementData::Nested(ElementMap::new()),
        }),
        SdfGeometry::Empty
    ));
}

#[test]
fn boxed_holds_its_value() {
    let b = Boxed::new(7u32);
    assert_eq!(*b.get(), 7);
    assert_eq!(b.into_inner(), 7);
}

#[test]
fn field_names_are_snake_cased() {
    let d = declaration(r#"<element name="camera"><attribute name="horizontalFov" type="double"/><element name="ignition:lens" type="string"/></element>"#);
    let files = vec![SchemaElement::from_schema_file(&d, "camera.sdf").unwrap()];
    let types = compile(&files, &Vec::new()).unwrap();
    assert_eq!(types[0].fields[0].field_name, "horizontal_fov");
    assert_eq!(types[0].fields[0].tag, "horizontalFov");
    assert!(!types[0].fields[1].field_name.contains(':'));
}

#[test]
fn field_type_texts() {
    let files = model_files();
    let types = compile(&files, &vec!["frame.sdf".to_string()]).unwrap();
    let texts: Vec<String> = types[0].fields.iter().map(field_type_text).collect();
    assert_eq!(
        texts,
        vec![
            "String",
            "Option<bool>",
            "Option<String>",
            "Vec<SdfModelLink>",
            "Vec<Boxed<SdfModel>>",
            "Vec<SdfFrame>"
        ]
    );
    let link: Vec<String> = types[1].fields.iter().map(field_type_text).collect();
    assert_eq!(link, vec!["String", "f64", "Vec<Vector3d>"]);
}
