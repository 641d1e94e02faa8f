use vstd::prelude::*;
use crate::document::{DataView, ElementData, ElementMap, ElementView, XmlElement};

verus! {

broadcast use vstd::std_specs::vec::group_vec_axioms, vstd::seq::group_seq_axioms;

/// The shapes that a geometry can take.
#[derive(PartialEq, Eq, Structural, Debug, Clone, Copy)]
pub enum ShapeKind {
    Box,
    Capsule,
    Cylinder,
    Ellipsoid,
    Heightmap,
    Image,
    Mesh,
    Plane,
    Polyline,
    Sphere,
}

/// The shape that the tag `t` names, if any.
pub open spec fn kind_of_tag(t: Seq<char>) -> Option<ShapeKind> {
    if t == "box"@ {
        Some(ShapeKind::Box)
    } else if t == "capsule"@ {
        Some(ShapeKind::Capsule)
    } else if t == "cylinder"@ {
        Some(ShapeKind::Cylinder)
    } else if t == "ellipsoid"@ {
        Some(ShapeKind::Ellipsoid)
    } else if t == "heightmap"@ {
        Some(ShapeKind::Heightmap)
    } else if t == "image"@ {
        Some(ShapeKind::Image)
    } else if t == "mesh"@ {
        Some(ShapeKind::Mesh)
    } else if t == "plane"@ {
        Some(ShapeKind::Plane)
    } else if t == "polyline"@ {
        Some(ShapeKind::Polyline)
    } else if t == "sphere"@ {
        Some(ShapeKind::Sphere)
    } else {
        None
    }
}

/// Which shape a tag names.
pub fn shape_kind(tag: &str) -> (r: Option<ShapeKind>)
    ensures
        r == kind_of_tag(tag@),
{
    let t = tag.to_owned();
    if t == "box".to_owned() {
        Some(ShapeKind::Box)
    } else if t == "capsule".to_owned() {
        Some(ShapeKind::Capsule)
    } else if t == "cylinder".to_owned() {
        Some(ShapeKind::Cylinder)
    } else if t == "ellipsoid".to_owned() {
        Some(ShapeKind::Ellipsoid)
    } else if t == "heightmap".to_owned() {
        Some(ShapeKind::Heightmap)
    } else if t == "image".to_owned() {
        Some(ShapeKind::Image)
    } else if t == "mesh".to_owned() {
        Some(ShapeKind::Mesh)
    } else if t == "plane".to_owned() {
        Some(ShapeKind::Plane)
    } else if t == "polyline".to_owned() {
        Some(ShapeKind::Polyline)
    } else if t == "sphere".to_owned() {
        Some(ShapeKind::Sphere)
    } else {
        None
    }
}

/// The shape of a visual or collision object: one of the known shapes, each
/// carrying its element, or none.
pub enum SdfGeometry {
    Empty,
    Box(XmlElement),
    Capsule(XmlElement),
    Cylinder(XmlElement),
    Ellipsoid(XmlElement),
    Heightmap(XmlElement),
    Image(XmlElement),
    Mesh(XmlElement),
    Plane(XmlElement),
    Polyline(XmlElement),
    Sphere(XmlElement),
}

/// The active shape and its element; `None` for the empty geometry.
pub open spec fn shape_of(g: SdfGeometry) -> Option<(ShapeKind, ElementView)> {
    match g {
        SdfGeometry::Empty => None,
        SdfGeometry::Box(e) => Some((ShapeKind::Box, e@)),
        SdfGeometry::Capsule(e) => Some((ShapeKind::Capsule, e@)),
        SdfGeometry::Cylinder(e) => Some((ShapeKind::Cylinder, e@)),
        SdfGeometry::Ellipsoid(e) => Some((ShapeKind::Ellipsoid, e@)),
        SdfGeometry::Heightmap(e) => Some((ShapeKind::Heightmap, e@)),
        SdfGeometry::Image(e) => Some((ShapeKind::Image, e@)),
        SdfGeometry::Mesh(e) => Some((ShapeKind::Mesh, e@)),
        SdfGeometry::Plane(e) => Some((ShapeKind::Plane, e@)),
        SdfGeometry::Polyline(e) => Some((ShapeKind::Polyline, e@)),
        SdfGeometry::Sphere(e) => Some((ShapeKind::Sphere, e@)),
    }
}

/// The first of `kids` whose tag names a shape, with that shape.
pub open spec fn first_shape(kids: Seq<ElementView>) -> Option<(ShapeKind, ElementView)>
    decreases kids.len(),
{
    if kids.len() == 0 {
        None
    } else {
        match kind_of_tag(kids[0].name) {
            Some(k) => Some((k, kids[0])),
            None => first_shape(kids.drop_first()),
        }
    }
}

/// The shape that a geometry element selects: its first child whose tag
/// names a shape; none where it has no such child.
pub open spec fn selected_shape(e: ElementView) -> Option<(ShapeKind, ElementView)> {
    match e.data {
        DataView::Text(_) => None,
        DataView::Nested(kids) => first_shape(kids),
    }
}

fn with_kind(kind: ShapeKind, e: XmlElement) -> (r: SdfGeometry)
    ensures
        shape_of(r) == Some((kind, e@)),
{
    match kind {
        ShapeKind::Box => SdfGeometry::Box(e),
        ShapeKind::Capsule => SdfGeometry::Capsule(e),
        ShapeKind::Cylinder => SdfGeometry::Cylinder(e),
        ShapeKind::Ellipsoid => SdfGeometry::Ellipsoid(e),
        ShapeKind::Heightmap => SdfGeometry::Heightmap(e),
        ShapeKind::Image => SdfGeometry::Image(e),
        ShapeKind::Mesh => SdfGeometry::Mesh(e),
        ShapeKind::Plane => SdfGeometry::Plane(e),
        ShapeKind::Polyline => SdfGeometry::Polyline(e),
        ShapeKind::Sphere => SdfGeometry::Sphere(e),
    }
}

proof fn lemma_first_shape_skip(kids: Seq<ElementView>, i: int)
    requires
        0 <= i <= kids.len(),
        forall|j: int| 0 <= j < i ==> kind_of_tag(#[trigger] kids[j].name) is None,
    ensures
        first_shape(kids) == first_shape(kids.subrange(i, kids.len() as int)),
    decreases i,
{
    if i > 0 {
        let rest = kids.drop_first();
        assert forall|j: int| 0 <= j < i - 1 implies kind_of_tag(#[trigger] rest[j].name) is None by {
            assert(rest[j] == kids[j + 1]);
        }
        lemma_first_shape_skip(rest, i - 1);
        assert(rest.subrange(i - 1, rest.len() as int) =~= kids.subrange(i, kids.len() as int));
    } else {
        assert(kids.subrange(0, kids.len() as int) =~= kids);
    }
}

impl SdfGeometry {
    /// Selects the shape of a geometry element by the tags of its children.
    pub fn from_element(e: &XmlElement) -> (r: SdfGeometry)
        ensures
            shape_of(r) == selected_shape(e@),
    {
        match &e.data {
            ElementData::String(_) => SdfGeometry::Empty,
            ElementData::Nested(m) => {
                let all = m.all();
                proof {
                    crate::document::lemma_elements_view(all@);
                }
                let mut i: usize = 0;
                while i < all.len()
                    invariant
                        i <= all@.len(),
                        e.data == ElementData::Nested(*m),
                        crate::document::elements_view(all@) == m@,
                        m@.len() == all@.len(),
                        forall|j: int| 0 <= j < all@.len() ==> #[trigger] m@[j] == all@[j]@,
                        forall|j: int| 0 <= j < i ==> kind_of_tag(#[trigger] m@[j].name) is None,
                    decreases all@.len() - i,
                {
                    match shape_kind(all[i].name.as_str()) {
                        Some(k) => {
                            proof {
                                lemma_first_shape_skip(m@, i as int);
                                let sub = m@.subrange(i as int, m@.len() as int);
                                assert(sub[0] == m@[i as int]);
                                assert(m@[i as int].name == all@[i as int].name@);
                                assert(first_shape(sub) == Some((k, m@[i as int])));
                            }
                            return with_kind(k, all[i].deep_clone());
                        },
                        None => {},
                    }
                    i = i + 1;
                }
                proof {
                    lemma_first_shape_skip(m@, i as int);
                    assert(m@.subrange(i as int, m@.len() as int).len() == 0);
                }
                SdfGeometry::Empty
            },
        }
    }

    /// A `geometry` element holding the active shape's element, or nothing.
    pub fn to_element(&self) -> (r: XmlElement)
        ensures
            r@.name == "geometry"@,
            r@.attributes.len() == 0,
            match shape_of(*self) {
                Some((_, e)) => r@.data == DataView::Nested(seq![e]),
                None => r@.data == DataView::Text(Seq::empty()),
            },
    {
        let mut r = XmlElement::new("geometry".to_owned());
        let shape = match self {
            SdfGeometry::Empty => None,
            SdfGeometry::Box(e) => Some(e),
            SdfGeometry::Capsule(e) => Some(e),
            SdfGeometry::Cylinder(e) => Some(e),
            SdfGeometry::Ellipsoid(e) => Some(e),
            SdfGeometry::Heightmap(e) => Some(e),
            SdfGeometry::Image(e) => Some(e),
            SdfGeometry::Mesh(e) => Some(e),
            SdfGeometry::Plane(e) => Some(e),
            SdfGeometry::Polyline(e) => Some(e),
            SdfGeometry::Sphere(e) => Some(e),
        };
        match shape {
            Some(e) => {
                let mut m = ElementMap::new();
                m.push(e.deep_clone());
                proof {
                    assert(m@ =~= seq![e@]);
                }
                r.data = ElementData::Nested(m);
            },
            None => {},
        }
        r
    }
}

/// A frame declared in a model; it carries no fields.
pub struct SdfFrame {}

} // verus!
