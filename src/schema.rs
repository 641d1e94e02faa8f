use vstd::prelude::*;
use crate::compiler::SchemaError;
use crate::document::{
    attribute_value, lemma_map_view, DataView, ElementData,
    ElementView, XmlElement,
};
use crate::events::attribute_or_empty;

verus! {

broadcast use vstd::std_specs::vec::group_vec_axioms, vstd::seq::group_seq_axioms;

/// How many times a declared child may occur.
#[derive(PartialEq, Eq, Structural, Debug, Clone, Copy)]
pub enum Cardinality {
    Optional,
    ExactlyOne,
    Many,
}

/// The cardinality that a `required` marker declares: `true` or `1` is
/// exactly one, `*` or `+` is many, anything else is optional.
pub open spec fn cardinality_of(marker: Seq<char>) -> Cardinality {
    if marker == "true"@ || marker == "1"@ {
        Cardinality::ExactlyOne
    } else if marker == "*"@ || marker == "+"@ {
        Cardinality::Many
    } else {
        Cardinality::Optional
    }
}

impl Cardinality {
    /// Reads a `required` marker.
    pub fn from_marker(marker: &str) -> (r: Cardinality)
        ensures
            r == cardinality_of(marker@),
    {
        let m = marker.to_owned();
        if m == "true".to_owned() || m == "1".to_owned() {
            Cardinality::ExactlyOne
        } else if m == "*".to_owned() || m == "+".to_owned() {
            Cardinality::Many
        } else {
            Cardinality::Optional
        }
    }
}

/// A declared attribute: always a scalar.
pub struct SchemaAttribute {
    pub name: String,
    pub rtype: String,
    pub required: Cardinality,
    pub default: Option<String>,
    pub description: String,
}

/// A child slot filled by the element that another schema file declares.
pub struct SchemaInclude {
    pub filename: String,
    pub required: Cardinality,
}

/// A declared element: its own properties, then its children, attributes and
/// includes in order.
pub struct SchemaElement {
    pub name: String,
    /// The scalar type of a leaf; empty for a composite element.
    pub rtype: String,
    pub required: Cardinality,
    pub default: Option<String>,
    pub description: String,
    /// The element that this slot stands for, where it refers to one rather
    /// than nesting a declaration.
    pub reference: Option<String>,
    pub children: Vec<SchemaElement>,
    pub attributes: Vec<SchemaAttribute>,
    pub includes: Vec<SchemaInclude>,
    /// The schema file that declares the element.
    pub source_file: String,
    pub top_level: bool,
}

pub struct AttributeView {
    pub name: Seq<char>,
    pub rtype: Seq<char>,
    pub required: Cardinality,
    pub default: Option<Seq<char>>,
    pub description: Seq<char>,
}

pub struct IncludeView {
    pub filename: Seq<char>,
    pub required: Cardinality,
}

pub struct SchemaView {
    pub name: Seq<char>,
    pub rtype: Seq<char>,
    pub required: Cardinality,
    pub default: Option<Seq<char>>,
    pub description: Seq<char>,
    pub reference: Option<Seq<char>>,
    pub children: Seq<SchemaView>,
    pub attributes: Seq<AttributeView>,
    pub includes: Seq<IncludeView>,
    pub source_file: Seq<char>,
    pub top_level: bool,
}

pub open spec fn opt_view(o: Option<String>) -> Option<Seq<char>> {
    match o {
        Some(s) => Some(s@),
        None => None,
    }
}

impl View for SchemaAttribute {
    type V = AttributeView;

    open spec fn view(&self) -> AttributeView {
        AttributeView {
            name: self.name@,
            rtype: self.rtype@,
            required: self.required,
            default: opt_view(self.default),
            description: self.description@,
        }
    }
}

impl View for SchemaInclude {
    type V = IncludeView;

    open spec fn view(&self) -> IncludeView {
        IncludeView { filename: self.filename@, required: self.required }
    }
}

pub open spec fn schema_view(e: SchemaElement) -> SchemaView
    decreases e,
{
    SchemaView {
        name: e.name@,
        rtype: e.rtype@,
        required: e.required,
        default: opt_view(e.default),
        description: e.description@,
        reference: opt_view(e.reference),
        children: schemas_view(e.children@),
        attributes: e.attributes@.map_values(|a: SchemaAttribute| a@),
        includes: e.includes@.map_values(|i: SchemaInclude| i@),
        source_file: e.source_file@,
        top_level: e.top_level,
    }
}

pub open spec fn schemas_view(s: Seq<SchemaElement>) -> Seq<SchemaView>
    decreases s,
{
    if s.len() == 0 {
        Seq::empty()
    } else {
        schemas_view(s.drop_last()).push(schema_view(s.last()))
    }
}

impl View for SchemaElement {
    type V = SchemaView;

    open spec fn view(&self) -> SchemaView {
        schema_view(*self)
    }
}

pub proof fn lemma_schemas_view(s: Seq<SchemaElement>)
    ensures
        schemas_view(s).len() == s.len(),
        forall|i: int| 0 <= i < s.len() ==> #[trigger] schemas_view(s)[i] == s[i]@,
    decreases s.len(),
{
    if s.len() > 0 {
        lemma_schemas_view(s.drop_last());
    }
}


/// The cardinality that a declaration's `required` attribute gives; optional
/// where it has none.
pub open spec fn required_of(a: Seq<(Seq<char>, Seq<char>)>) -> Cardinality {
    match attribute_value(a, "required"@) {
        Some(m) => cardinality_of(m),
        None => Cardinality::Optional,
    }
}

/// An `element` declaration's own properties, before its content.
pub open spec fn declared_properties(node: ElementView, f: Seq<char>) -> SchemaView {
    SchemaView {
        name: attribute_or_empty(node.attributes, "name"@),
        rtype: attribute_or_empty(node.attributes, "type"@),
        required: required_of(node.attributes),
        default: attribute_value(node.attributes, "default"@),
        description: Seq::empty(),
        reference: attribute_value(node.attributes, "ref"@),
        children: Seq::empty(),
        attributes: Seq::empty(),
        includes: Seq::empty(),
        source_file: f,
        top_level: false,
    }
}

pub open spec fn node_children(node: ElementView) -> Seq<ElementView> {
    match node.data {
        DataView::Nested(kids) => kids,
        DataView::Text(_) => Seq::empty(),
    }
}

/// The text of the last `description` among `kids` that holds text, or `d`.
pub open spec fn description_in(kids: Seq<ElementView>, d: Seq<char>) -> Seq<char>
    decreases kids.len(),
{
    if kids.len() == 0 {
        d
    } else {
        let k = kids.last();
        let before = description_in(kids.drop_last(), d);
        if k.name == "description"@ {
            match k.data {
                DataView::Text(t) => t,
                DataView::Nested(_) => before,
            }
        } else {
            before
        }
    }
}

/// An `attribute` declaration, with the description it holds.
pub open spec fn declared_attribute(node: ElementView) -> AttributeView {
    AttributeView {
        name: attribute_or_empty(node.attributes, "name"@),
        rtype: attribute_or_empty(node.attributes, "type"@),
        required: required_of(node.attributes),
        default: attribute_value(node.attributes, "default"@),
        description: description_in(node_children(node), Seq::empty()),
    }
}

/// An `include` declaration; `None` where it names no target file.
pub open spec fn declared_include(node: ElementView) -> Option<IncludeView> {
    match attribute_value(node.attributes, "filename"@) {
        Some(f) => Some(IncludeView { filename: f, required: required_of(node.attributes) }),
        None => None,
    }
}

/// The model of an `element` declaration: its properties, then for each
/// child node in order an attribute, a nested element, an include or its
/// description. `None` where an include has no target file.
pub open spec fn declared_element(node: ElementView, f: Seq<char>) -> Option<SchemaView>
    decreases node,
{
    match node.data {
        DataView::Nested(kids) => declared_content(declared_properties(node, f), kids, f),
        DataView::Text(_) => Some(declared_properties(node, f)),
    }
}

pub open spec fn declared_content(acc: SchemaView, kids: Seq<ElementView>, f: Seq<char>) -> Option<
    SchemaView,
>
    decreases kids,
{
    if kids.len() == 0 {
        Some(acc)
    } else {
        match declared_content(acc, kids.drop_last(), f) {
            None => None,
            Some(m) => {
                let k = kids.last();
                if k.name == "attribute"@ {
                    Some(SchemaView { attributes: m.attributes.push(declared_attribute(k)), ..m })
                } else if k.name == "element"@ {
                    match declared_element(k, f) {
                        Some(c) => Some(SchemaView { children: m.children.push(c), ..m }),
                        None => None,
                    }
                } else if k.name == "include"@ {
                    match declared_include(k) {
                        Some(i) => Some(SchemaView { includes: m.includes.push(i), ..m }),
                        None => None,
                    }
                } else if k.name == "description"@ {
                    match k.data {
                        DataView::Text(t) => Some(SchemaView { description: t, ..m }),
                        DataView::Nested(_) => Some(m),
                    }
                } else {
                    Some(m)
                }
            },
        }
    }
}

fn attribute_text(node: &XmlElement, key: &str) -> (r: String)
    ensures
        r@ == attribute_or_empty(node@.attributes, key@),
{
    match node.attribute(key) {
        Some(v) => v.clone(),
        None => String::new(),
    }
}

fn attribute_opt(node: &XmlElement, key: &str) -> (r: Option<String>)
    ensures
        opt_view(r) == attribute_value(node@.attributes, key@),
{
    match node.attribute(key) {
        Some(v) => Some(v.clone()),
        None => None,
    }
}

fn required_from(node: &XmlElement) -> (r: Cardinality)
    ensures
        r == required_of(node@.attributes),
{
    match node.attribute("required") {
        Some(m) => Cardinality::from_marker(m.as_str()),
        None => Cardinality::Optional,
    }
}

fn attribute_declaration(node: &XmlElement) -> (r: SchemaAttribute)
    ensures
        r@ == declared_attribute(node@),
{
    let mut description = String::new();
    match &node.data {
        ElementData::String(_) => {},
        ElementData::Nested(m) => {
            proof {
                lemma_map_view(*m);
            }
            let mut i: usize = 0;
            while i < m.elements.len()
                invariant
                    i <= m.elements@.len(),
                    m@.len() == m.elements@.len(),
                    forall|j: int| 0 <= j < m.elements@.len() ==> #[trigger] m@[j] == m.elements@[j]@,
                    description@ == description_in(m@.take(i as int), Seq::empty()),
                decreases m.elements@.len() - i,
            {
                let k = &m.elements[i];
                proof {
                    assert(m@.take(i + 1).drop_last() =~= m@.take(i as int));
                    assert(m@.take(i + 1).last() == k@);
                }
                if k.name == "description".to_owned() {
                    match &k.data {
                        ElementData::String(t) => {
                            description = t.clone();
                        },
                        ElementData::Nested(_) => {},
                    }
                }
                i = i + 1;
            }
            proof {
                assert(m@.take(i as int) =~= m@);
            }
        },
    }
    SchemaAttribute {
        name: attribute_text(node, "name"),
        rtype: attribute_text(node, "type"),
        required: required_from(node),
        default: attribute_opt(node, "default"),
        description,
    }
}

impl SchemaElement {
    /// An empty model: no name, no type, optional, no content.
    pub fn new() -> (r: SchemaElement)
        ensures
            r@.children.len() == 0 && r@.attributes.len() == 0 && r@.includes.len() == 0,
            r@.name.len() == 0 && r@.rtype.len() == 0 && r@.source_file.len() == 0,
            r@.description.len() == 0 && !r@.top_level,
            r@.required == Cardinality::Optional && r@.default is None && r@.reference is None,
    {
        let r = SchemaElement {
            name: String::new(),
            rtype: String::new(),
            required: Cardinality::Optional,
            default: None,
            description: String::new(),
            reference: None,
            children: Vec::new(),
            attributes: Vec::new(),
            includes: Vec::new(),
            source_file: String::new(),
            top_level: false,
        };
        proof {
            assert(schemas_view(r.children@) =~= Seq::<SchemaView>::empty());
        }
        r
    }

    /// Builds the model of an `element` declaration node of the schema file
    /// `file`.
    pub fn from_declaration(node: &XmlElement, file: &str) -> (r: Result<SchemaElement, SchemaError>)
        ensures
            match r {
                Ok(m) => declared_element(node@, file@) == Some(m@),
                Err(SchemaError::MissingIncludeTarget) => declared_element(node@, file@) is None,
                Err(SchemaError::UnresolvedInclude(_)) => false,
            },
        decreases node,
    {
        let mut model = SchemaElement {
            name: attribute_text(node, "name"),
            rtype: attribute_text(node, "type"),
            required: required_from(node),
            default: attribute_opt(node, "default"),
            description: String::new(),
            reference: attribute_opt(node, "ref"),
            children: Vec::new(),
            attributes: Vec::new(),
            includes: Vec::new(),
            source_file: file.to_owned(),
            top_level: false,
        };
        proof {
            assert(schemas_view(model.children@) =~= Seq::<SchemaView>::empty());
            assert(model@.attributes =~= Seq::<AttributeView>::empty());
            assert(model@.includes =~= Seq::<IncludeView>::empty());
            assert(model@ == declared_properties(node@, file@));
        }
        match &node.data {
            ElementData::String(_) => {
                Ok(model)
            },
            ElementData::Nested(m) => {
                proof {
                    lemma_map_view(*m);
                    assert(m@.take(0) =~= Seq::<ElementView>::empty());
                }
                let mut i: usize = 0;
                while i < m.elements.len()
                    invariant
                        i <= m.elements@.len(),
                        node.data == ElementData::Nested(*m),
                        m@.len() == m.elements@.len(),
                        forall|j: int| 0 <= j < m.elements@.len() ==> #[trigger] m@[j] == m.elements@[j]@,
                        declared_content(declared_properties(node@, file@), m@.take(i as int), file@) == Some(model@),
                    decreases m.elements@.len() - i,
                {
                    let k = &m.elements[i];
                    let ghost before = model@;
                    proof {
                        assert(m@.take(i + 1).drop_last() =~= m@.take(i as int));
                        assert(m@.take(i + 1).last() == k@);
                        lemma_schemas_view(model.children@);
                    }
                    if k.name == "attribute".to_owned() {
                        let a = attribute_declaration(k);
                        model.attributes.push(a);
                        proof {
                            assert(model@.attributes =~= before.attributes.push(a@));
                            assert(model@ =~= SchemaView { attributes: before.attributes.push(a@), ..before });
                        }
                    } else if k.name == "element".to_owned() {
                        proof {
                            let d = node.data;
                            assert(decreases_to!(*node => d));
                            assert(decreases_to!(d => d->Nested_0));
                            assert(decreases_to!(m.elements => m.elements@));
                            assert(decreases_to!(*node => m.elements@[i as int]));
                        }
                        match SchemaElement::from_declaration(k, file) {
                            Ok(c) => {
                                let ghost cv = c@;
                                let ghost kids_before = model.children@;
                                model.children.push(c);
                                proof {
                                    assert(model.children@.drop_last() =~= kids_before);
                                    assert(model@.children =~= before.children.push(cv));
                                    assert(model@ =~= SchemaView { children: before.children.push(cv), ..before });
                                }
                            },
                            Err(e) => {
                                proof {
                                    lemma_content_none(declared_properties(node@, file@), m@, i + 1, file@);
                                }
                                return Err(e);
                            },
                        }
                    } else if k.name == "include".to_owned() {
                        match k.attribute("filename") {
                            Some(f) => {
                                let inc = SchemaInclude { filename: f.clone(), required: required_from(k) };
                                model.includes.push(inc);
                                proof {
                                    assert(model@.includes =~= before.includes.push(inc@));
                                    assert(model@ =~= SchemaView { includes: before.includes.push(inc@), ..before });
                                }
                            },
                            None => {
                                proof {
                                    lemma_content_none(declared_properties(node@, file@), m@, i + 1, file@);
                                }
                                return Err(SchemaError::MissingIncludeTarget);
                            },
                        }
                    } else if k.name == "description".to_owned() {
                        match &k.data {
                            ElementData::String(t) => {
                                model.description = t.clone();
                                proof {
                                    assert(model@ =~= SchemaView { description: t@, ..before });
                                }
                            },
                            ElementData::Nested(_) => {},
                        }
                    }
                    i = i + 1;
                }
                proof {
                    assert(m@.take(i as int) =~= m@);
                }
                Ok(model)
            },
        }
    }
}

/// The model of a whole schema file: the declaration of its root element,
/// marked top-level; every declaration carries the file's name.
pub open spec fn schema_file_model(root: ElementView, f: Seq<char>) -> Option<SchemaView> {
    match declared_element(root, f) {
        Some(m) => Some(SchemaView { top_level: true, ..m }),
        None => None,
    }
}

impl SchemaElement {
    /// Builds the model of a schema file from its root declaration: marked
    /// top-level, with the file's name on every declaration.
    pub fn from_schema_file(root: &XmlElement, file: &str) -> (r: Result<SchemaElement, SchemaError>)
        ensures
            match r {
                Ok(m) => schema_file_model(root@, file@) == Some(m@),
                Err(SchemaError::MissingIncludeTarget) => schema_file_model(root@, file@) is None,
                Err(SchemaError::UnresolvedInclude(_)) => false,
            },
    {
        match SchemaElement::from_declaration(root, file) {
            Ok(m) => {
                let mut m = m;
                m.top_level = true;
                Ok(m)
            },
            Err(e) => Err(e),
        }
    }
}

proof fn lemma_content_none(acc: SchemaView, kids: Seq<ElementView>, j: int, f: Seq<char>)
    requires
        0 <= j <= kids.len(),
        declared_content(acc, kids.take(j), f) is None,
    ensures
        declared_content(acc, kids, f) is None,
    decreases kids.len(),
{
    if j == kids.len() {
        assert(kids.take(j) =~= kids);
    } else {
        assert(kids.drop_last().take(j) =~= kids.take(j));
        lemma_content_none(acc, kids.drop_last(), j, f);
    }
}

} // verus!
